//! Component arguments, the unresolved inputs that they come from, and the
//! windows that targets with a tolerance span.
use crate::quantity::{decimal_cmp, lemma_decimal_cmp_in_units, Quantity};
use vstd::arithmetic::power::*;
use crate::series::{series_table, series_values, Series};
use vstd::prelude::*;

verus! {

/// Tolerances and window factors are given in parts per billion.
pub const PARTS: u64 = 1_000_000_000;

/// A component argument, or a target for the frequency or the quality factor.
#[derive(Clone, Copy, Debug, PartialEq, Eq, Structural)]
pub enum Arg {
    /// A single fixed value.
    ArgWithExact(Quantity),
    /// A target and a fractional tolerance in parts per billion.
    ArgWithTolerance(Quantity, u32),
    /// The values of a series in `[min, max)`.
    ArgWithSeries(Series, Quantity, Quantity),
}

/// What a user entered for an argument, with the fallbacks for what was left
/// blank.
#[derive(Clone, Copy, Debug, PartialEq, Eq, Structural)]
pub enum Input {
    /// Target, fallback.
    InputWithExact(Option<Quantity>, Option<Quantity>),
    /// Target, tolerance in parts per billion, fallback target.
    InputWithTolerance(Option<Quantity>, u32, Quantity),
    /// Series, min, max, min fallback, max fallback.
    InputWithSeries(Series, Option<Quantity>, Option<Quantity>, Quantity, Quantity),
}

pub open spec fn or_fallback(v: Option<Quantity>, fallback: Quantity) -> Quantity {
    match v {
        Some(x) => x,
        None => fallback,
    }
}

/// The argument that an input resolves to; `None` where an exact input has
/// neither a target nor a fallback. The bounds of a series input fall back
/// each on its own.
pub open spec fn resolve(input: Input) -> Option<Arg> {
    match input {
        Input::InputWithExact(target, fallback) => match (target, fallback) {
            (Some(t), _) => Some(Arg::ArgWithExact(t)),
            (None, Some(f)) => Some(Arg::ArgWithExact(f)),
            (None, None) => None,
        },
        Input::InputWithTolerance(target, tolerance, fallback) => Some(
            Arg::ArgWithTolerance(or_fallback(target, fallback), tolerance),
        ),
        Input::InputWithSeries(series, min, max, min_fallback, max_fallback) => Some(
            Arg::ArgWithSeries(series, or_fallback(min, min_fallback), or_fallback(max, max_fallback)),
        ),
    }
}

/// The candidate values of an argument.
pub open spec fn arg_table(a: Arg) -> Seq<Quantity> {
    match a {
        Arg::ArgWithExact(v) => seq![v],
        Arg::ArgWithTolerance(v, _) => seq![v],
        Arg::ArgWithSeries(s, min, max) => series_values(s, min, max),
    }
}

/// An inclusive window `[low · low_factor, high · high_factor] · 10^-9`
/// around a target.
#[derive(Clone, Copy, Debug, PartialEq, Eq, Structural)]
pub struct Window {
    pub target: Quantity,
    pub low: Quantity,
    pub low_factor: u64,
    pub high: Quantity,
    pub high_factor: u64,
}

/// The window of a target with a tolerance of `tolerance` parts per billion:
/// `[t·(1 - f), t·(1 + f)]`. A lower end below zero is held as zero, as no
/// quantity that is compared with it is negative.
pub open spec fn spec_tolerance_window(target: Quantity, tolerance: u32) -> Window {
    Window {
        target,
        low: target,
        low_factor: if tolerance <= PARTS {
            (PARTS - tolerance) as u64
        } else {
            0
        },
        high: target,
        high_factor: (PARTS + tolerance) as u64,
    }
}

/// The window of an argument: a single point for an exact value, the
/// tolerance window for a target, and `[min, max]` with target `min` for a
/// series.
pub open spec fn arg_window(a: Arg) -> Window {
    match a {
        Arg::ArgWithExact(t) => Window {
            target: t,
            low: t,
            low_factor: PARTS,
            high: t,
            high_factor: PARTS,
        },
        Arg::ArgWithTolerance(t, f) => spec_tolerance_window(t, f),
        Arg::ArgWithSeries(_, min, max) => Window {
            target: min,
            low: min,
            low_factor: PARTS,
            high: max,
            high_factor: PARTS,
        },
    }
}

pub fn tolerance_window(target: Quantity, tolerance: u32) -> (r: Window)
    ensures
        r == spec_tolerance_window(target, tolerance),
{
    let low_factor: u64 = if tolerance as u64 <= PARTS {
        PARTS - tolerance as u64
    } else {
        0
    };
    Window {
        target,
        low: target,
        low_factor,
        high: target,
        high_factor: PARTS + tolerance as u64,
    }
}

pub fn value_to_tolerance(value: Arg) -> (r: Window)
    ensures
        r == arg_window(value),
{
    match value {
        Arg::ArgWithExact(t) => Window {
            target: t,
            low: t,
            low_factor: PARTS,
            high: t,
            high_factor: PARTS,
        },
        Arg::ArgWithTolerance(t, f) => tolerance_window(t, f),
        Arg::ArgWithSeries(_, min, max) => Window {
            target: min,
            low: min,
            low_factor: PARTS,
            high: max,
            high_factor: PARTS,
        },
    }
}

/// The bounds of a series input fall back each on its own: with only the
/// maximum given, the minimum is its own fallback, not the maximum. An exact
/// input with neither a target nor a fallback resolves to nothing.
pub proof fn lemma_fallbacks_are_independent(
    series: Series,
    max: Quantity,
    min_fallback: Quantity,
    max_fallback: Quantity,
)
    ensures
        resolve(Input::InputWithSeries(series, None, Some(max), min_fallback, max_fallback))
            == Some(Arg::ArgWithSeries(series, min_fallback, max)),
        resolve(Input::InputWithExact(None, None)) == None::<Arg>,
{
}

/// For a tolerance `f` in `[0, 1]` the window of a target `t` is
/// `[t·(1 - f), t·(1 + f)]`, symmetric about `t`, and holds `t`.
pub proof fn lemma_tolerance_window_holds_target(target: Quantity, tolerance: u32)
    requires
        tolerance <= PARTS,
    ensures
        ({
            let w = spec_tolerance_window(target, tolerance);
            let t = target.significand as int;
            let e = target.exponent as int;
            &&& w.low == target && w.high == target
            &&& w.low_factor == PARTS - tolerance
            &&& w.high_factor == PARTS + tolerance
            &&& PARTS - w.low_factor == w.high_factor - PARTS
            &&& decimal_cmp(t * w.low_factor, e - 9, t, e) <= 0
            &&& decimal_cmp(t, e, t * w.high_factor, e - 9) <= 0
        }),
{
    let w = spec_tolerance_window(target, tolerance);
    let t = target.significand as int;
    let e = target.exponent as int;
    assert(pow(10, 9) == PARTS) by {
        reveal_with_fuel(pow, 10);
    }
    assert(pow(10, 0) == 1) by {
        reveal(pow);
    }
    assert(t * w.low_factor <= t * PARTS) by (nonlinear_arith)
        requires t >= 0, w.low_factor <= PARTS;
    assert(t * PARTS <= t * w.high_factor) by (nonlinear_arith)
        requires t >= 0, w.high_factor >= PARTS;
    lemma_decimal_cmp_in_units(t * w.low_factor, e - 9, t, e, e - 9);
    lemma_decimal_cmp_in_units(t, e, t * w.high_factor, e - 9, e - 9);
}

impl Arg {
    /// The candidate values of this argument.
    pub fn to_table(&self) -> (r: Vec<Quantity>)
        ensures
            r@ == arg_table(*self),
    {
        match self {
            Arg::ArgWithExact(v) => {
                let r = vec![*v];
                proof {
                    assert(r@ =~= seq![*v]);
                }
                r
            },
            Arg::ArgWithTolerance(v, _) => {
                let r = vec![*v];
                proof {
                    assert(r@ =~= seq![*v]);
                }
                r
            },
            Arg::ArgWithSeries(s, min, max) => series_table(*s, *min, *max),
        }
    }
}

impl Input {
    /// The argument that this input resolves to.
    pub fn to_arg(&self) -> (r: Option<Arg>)
        ensures
            r == resolve(*self),
    {
        match self {
            Input::InputWithSeries(series, min, max, min_fallback, max_fallback) => {
                let lo = match min {
                    Some(v) => *v,
                    None => *min_fallback,
                };
                let hi = match max {
                    Some(v) => *v,
                    None => *max_fallback,
                };
                Some(Arg::ArgWithSeries(*series, lo, hi))
            },
            Input::InputWithTolerance(target, tolerance, fallback) => {
                let t = match target {
                    Some(v) => *v,
                    None => *fallback,
                };
                Some(Arg::ArgWithTolerance(t, *tolerance))
            },
            Input::InputWithExact(target, fallback) => match (target, fallback) {
                (Some(t), _) => Some(Arg::ArgWithExact(*t)),
                (None, Some(f)) => Some(Arg::ArgWithExact(*f)),
                (None, None) => None,
            },
        }
    }
}

} // verus!
