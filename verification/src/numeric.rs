//! Number ranges: an interval holding every number a schema accepts, read
//! off the schema's shape, with endpoints kept as exact doubles (their bit
//! patterns), and the disjointness, emptiness and containment facts drawn
//! from it.
//!
//! In contracts an endpoint is seen through its view: its value times
//! 2^1074 (an integer), whether it is inclusive, and whether it is a NaN
//! (with which every comparison fails).

use vstd::prelude::*;
use vstd::arithmetic::power2::{pow2, lemma_pow2_pos};
use crate::floats::{scaled_value, float_is_nan, compare_float_bits};
use crate::floats::{MAX_EXACT_INTEGER, small_integer_bits, lemma_float_rational_scaled, lemma_float_vs_rational};
use vstd::arithmetic::div_mod::lemma_fundamental_div_mod;
use crate::semantics::{accepts, enumeration_ok, lower_bound_ok, upper_bound_ok};
use crate::json::{float_exponent_field, float_fraction_field, JsonValue, JsonNumber, JSON_TYPE_NUMBER, json_eq, number_rational, number_is_integral};
use crate::shape::{has_direct_integer_conjunct, allof_has_direct_integer_conjunct};
use crate::schema::{SchemaNode, SchemaNodeKind, NumberBound, NumberBounds};
use crate::types::{may_have_type, obviously_accepts_type, lemma_type_facts_sound, may_accept_some_type,
    may_accept_other_type, lemma_possible_mask_tests, lemma_type_restriction, possible_json_type_mask, whole_json_types_accepted_mask};

verus! {

/// An endpoint as contracts see it: its value times 2^1074, whether it is
/// included, and whether it is a NaN.
pub type BoundView = (int, bool, bool);

/// A range as contracts see it: lower end, upper end, and the empty mark.
pub type IntervalView = (Option<BoundView>, Option<BoundView>, bool);

/// One end of a number range: the bits of a double and whether it is included.
#[derive(Clone, Copy, Debug, PartialEq, Eq, Structural)]
pub struct NumericIntervalBound {
    pub value: u64,
    pub inclusive: bool,
}

/// A number range; `empty` marks a range holding no number.
#[derive(Clone, Copy, Debug, PartialEq, Eq, Structural)]
pub struct NumericInterval {
    pub lower: Option<NumericIntervalBound>,
    pub upper: Option<NumericIntervalBound>,
    pub empty: bool,
}

/// The view of an endpoint: scaled value, inclusive, NaN.
pub open spec fn bound_view(b: NumericIntervalBound) -> BoundView {
    (scaled_value(b.value), b.inclusive, float_is_nan(b.value))
}

/// The view of an optional endpoint.
pub open spec fn opt_bound_view(b: Option<NumericIntervalBound>) -> Option<BoundView> {
    match b {
        Some(x) => Some(bound_view(x)),
        None => None,
    }
}

/// The view of a range: lower end, upper end, empty.
pub open spec fn interval_view(iv: NumericInterval) -> IntervalView {
    (opt_bound_view(iv.lower), opt_bound_view(iv.upper), iv.empty)
}

/// The view of an optional range.
pub open spec fn opt_interval_view(iv: Option<NumericInterval>) -> Option<IntervalView> {
    match iv {
        Some(x) => Some(interval_view(x)),
        None => None,
    }
}

/// The comparison of two endpoint views: `None` with a NaN, otherwise the
/// sign of the difference.
pub open spec fn view_order(a: BoundView, b: BoundView) -> Option<int> {
    if a.2 || b.2 {
        None
    } else if a.0 < b.0 {
        Some(-1)
    } else if a.0 == b.0 {
        Some(0)
    } else {
        Some(1)
    }
}

/// The larger of two lower ends (`None` when they cannot be compared).
pub open spec fn tighter_lower_view(l: Option<BoundView>, r: Option<BoundView>) -> Option<BoundView> {
    match (l, r) {
        (None, b) => b,
        (b, None) => b,
        (Some(x), Some(y)) => match view_order(x, y) {
            None => None,
            Some(c) => if c < 0 { Some(y) } else if c > 0 { Some(x) } else { Some((x.0, x.1 && y.1, x.2)) },
        },
    }
}

/// The smaller of two upper ends (`None` when they cannot be compared).
pub open spec fn tighter_upper_view(l: Option<BoundView>, r: Option<BoundView>) -> Option<BoundView> {
    match (l, r) {
        (None, b) => b,
        (b, None) => b,
        (Some(x), Some(y)) => match view_order(x, y) {
            None => None,
            Some(c) => if c < 0 { Some(x) } else if c > 0 { Some(y) } else { Some((x.0, x.1 && y.1, x.2)) },
        },
    }
}

/// The smaller of two lower ends, absent when either is; `None` when they
/// cannot be compared.
pub open spec fn looser_lower_view(l: Option<BoundView>, r: Option<BoundView>) -> Option<Option<BoundView>> {
    match (l, r) {
        (Some(x), Some(y)) => match view_order(x, y) {
            None => None,
            Some(c) => if c < 0 { Some(Some(x)) } else if c > 0 { Some(Some(y)) } else { Some(Some((x.0, x.1 || y.1, x.2))) },
        },
        _ => Some(None),
    }
}

/// The larger of two upper ends, absent when either is; `None` when they
/// cannot be compared.
pub open spec fn looser_upper_view(l: Option<BoundView>, r: Option<BoundView>) -> Option<Option<BoundView>> {
    match (l, r) {
        (Some(x), Some(y)) => match view_order(x, y) {
            None => None,
            Some(c) => if c < 0 { Some(Some(y)) } else if c > 0 { Some(Some(x)) } else { Some(Some((x.0, x.1 || y.1, x.2))) },
        },
        _ => Some(None),
    }
}

/// Whether two ends leave no room: the lower above the upper, or equal with
/// one of them excluded.
pub open spec fn bounds_empty_view(lower: Option<BoundView>, upper: Option<BoundView>) -> bool {
    match (lower, upper) {
        (Some(l), Some(u)) => match view_order(l, u) {
            Some(c) => c > 0 || (c == 0 && !(l.1 && u.1)),
            None => false,
        },
        _ => false,
    }
}

/// The range `intersect` computes.
pub open spec fn intersect_view(
    a: IntervalView,
    b: IntervalView,
) -> IntervalView {
    if a.2 || b.2 {
        (a.0, a.1, true)
    } else {
        let lo = tighter_lower_view(a.0, b.0);
        let hi = tighter_upper_view(a.1, b.1);
        (lo, hi, bounds_empty_view(lo, hi))
    }
}

/// The range `hull` computes (`None` when two ends cannot be compared).
pub open spec fn hull_view(
    a: IntervalView,
    b: IntervalView,
) -> Option<IntervalView> {
    if a.2 {
        Some(b)
    } else if b.2 {
        Some(a)
    } else {
        match (looser_lower_view(a.0, b.0), looser_upper_view(a.1, b.1)) {
            (Some(lo), Some(hi)) => Some((lo, hi, false)),
            _ => None,
        }
    }
}

/// Whether a lower end admits the number `x = (p, q)`, `q > 0`.
pub open spec fn lower_admits(b: Option<BoundView>, x: (int, int)) -> bool {
    match b {
        None => true,
        Some(v) => if v.1 { v.0 * x.1 <= x.0 * pow2(1074) } else { v.0 * x.1 < x.0 * pow2(1074) },
    }
}

/// Whether an upper end admits the number `x = (p, q)`, `q > 0`.
pub open spec fn upper_admits(b: Option<BoundView>, x: (int, int)) -> bool {
    match b {
        None => true,
        Some(v) => if v.1 { x.0 * pow2(1074) <= v.0 * x.1 } else { x.0 * pow2(1074) < v.0 * x.1 },
    }
}

/// Whether a range holds the number `x = (p, q)`, `q > 0`.
pub open spec fn interval_admits(iv: IntervalView, x: (int, int)) -> bool {
    !iv.2 && lower_admits(iv.0, x) && upper_admits(iv.1, x)
}

/// The range holding no number.
pub open spec fn empty_view() -> IntervalView {
    (Some((0, false, false)), Some((0, false, false)), true)
}

/// The range holding every number.
pub open spec fn unbounded_view() -> IntervalView {
    (None, None, false)
}

/// A tighter lower end admits what both ends admit.
proof fn lemma_tighter_sound(l: Option<BoundView>, r: Option<BoundView>, x: (int, int))
    requires
        x.1 > 0,
    ensures
        lower_admits(l, x) && lower_admits(r, x) ==> lower_admits(tighter_lower_view(l, r), x),
        upper_admits(l, x) && upper_admits(r, x) ==> upper_admits(tighter_upper_view(l, r), x),
{
}

/// A looser end admits what either end admits.
proof fn lemma_looser_sound(l: Option<BoundView>, r: Option<BoundView>, x: (int, int))
    requires
        x.1 > 0,
    ensures
        (lower_admits(l, x) || lower_admits(r, x)) && looser_lower_view(l, r) is Some ==> lower_admits(looser_lower_view(l, r)->0, x),
        (upper_admits(l, x) || upper_admits(r, x)) && looser_upper_view(l, r) is Some ==> upper_admits(looser_upper_view(l, r)->0, x),
{
    match (l, r) {
        (Some(a), Some(b)) => {
            let q = x.1;
            assert(a.0 < b.0 ==> a.0 * q < b.0 * q) by (nonlinear_arith)
                requires
                    q > 0;
            assert(b.0 < a.0 ==> b.0 * q < a.0 * q) by (nonlinear_arith)
                requires
                    q > 0;
        },
        _ => {},
    }
}

/// Ends that leave no room admit no number together.
proof fn lemma_bounds_empty_sound(lower: Option<BoundView>, upper: Option<BoundView>, x: (int, int))
    requires
        x.1 > 0,
    ensures
        bounds_empty_view(lower, upper) ==> !(lower_admits(lower, x) && upper_admits(upper, x)),
{
    match (lower, upper) {
        (Some(l), Some(u)) => {
            let q = x.1;
            assert(l.0 > u.0 ==> l.0 * q > u.0 * q) by (nonlinear_arith)
                requires
                    q > 0;
        },
        _ => {},
    }
}

/// Law: the intersection of two ranges holds every number both hold.
pub proof fn lemma_intersect_sound(
    a: IntervalView,
    b: IntervalView,
    x: (int, int),
)
    requires
        x.1 > 0,
    ensures
        interval_admits(a, x) && interval_admits(b, x) ==> interval_admits(intersect_view(a, b), x),
{
    if !a.2 && !b.2 {
        lemma_tighter_sound(a.0, b.0, x);
        lemma_tighter_sound(a.1, b.1, x);
        lemma_bounds_empty_sound(tighter_lower_view(a.0, b.0), tighter_upper_view(a.1, b.1), x);
    }
}

/// Law: the hull of two ranges, when it exists, holds every number either
/// holds.
pub proof fn lemma_hull_sound(
    a: IntervalView,
    b: IntervalView,
    x: (int, int),
)
    requires
        x.1 > 0,
    ensures
        (interval_admits(a, x) || interval_admits(b, x)) && hull_view(a, b) is Some ==> interval_admits(hull_view(a, b)->0, x),
{
    if !a.2 && !b.2 {
        lemma_looser_sound(a.0, b.0, x);
        lemma_looser_sound(a.1, b.1, x);
    }
}

/// The larger of two lower ends; with equal values the end is included only
/// when both are; `None` when one is missing and the other is, or when the
/// two cannot be compared (a NaN).
pub fn tighter_lower(left: Option<NumericIntervalBound>, right: Option<NumericIntervalBound>) -> (r: Option<NumericIntervalBound>)
    ensures
        opt_bound_view(r) == tighter_lower_view(opt_bound_view(left), opt_bound_view(right)),
{
    match (left, right) {
        (None, bound) => bound,
        (bound, None) => bound,
        (Some(l), Some(rt)) => match compare_float_bits(l.value, rt.value) {
            Some(c) => if c < 0 {
                Some(rt)
            } else if c > 0 {
                Some(l)
            } else {
                Some(NumericIntervalBound { value: l.value, inclusive: l.inclusive && rt.inclusive })
            },
            None => None,
        },
    }
}

/// The smaller of two upper ends (see `tighter_lower`).
pub fn tighter_upper(left: Option<NumericIntervalBound>, right: Option<NumericIntervalBound>) -> (r: Option<NumericIntervalBound>)
    ensures
        opt_bound_view(r) == tighter_upper_view(opt_bound_view(left), opt_bound_view(right)),
{
    match (left, right) {
        (None, bound) => bound,
        (bound, None) => bound,
        (Some(l), Some(rt)) => match compare_float_bits(l.value, rt.value) {
            Some(c) => if c < 0 {
                Some(l)
            } else if c > 0 {
                Some(rt)
            } else {
                Some(NumericIntervalBound { value: l.value, inclusive: l.inclusive && rt.inclusive })
            },
            None => None,
        },
    }
}

/// The smaller of two lower ends, absent when either is absent; with equal
/// values the end is included when either is; `None` when the two cannot
/// be compared.
pub fn looser_lower(left: Option<NumericIntervalBound>, right: Option<NumericIntervalBound>) -> (r: Option<Option<NumericIntervalBound>>)
    ensures
        match r {
            None => looser_lower_view(opt_bound_view(left), opt_bound_view(right)) is None,
            Some(b) => looser_lower_view(opt_bound_view(left), opt_bound_view(right)) == Some(opt_bound_view(b)),
        },
{
    match (left, right) {
        (Some(l), Some(rt)) => match compare_float_bits(l.value, rt.value) {
            Some(c) => if c < 0 {
                Some(Some(l))
            } else if c > 0 {
                Some(Some(rt))
            } else {
                Some(Some(NumericIntervalBound { value: l.value, inclusive: l.inclusive || rt.inclusive }))
            },
            None => None,
        },
        _ => Some(None),
    }
}

/// The larger of two upper ends (see `looser_lower`).
pub fn looser_upper(left: Option<NumericIntervalBound>, right: Option<NumericIntervalBound>) -> (r: Option<Option<NumericIntervalBound>>)
    ensures
        match r {
            None => looser_upper_view(opt_bound_view(left), opt_bound_view(right)) is None,
            Some(b) => looser_upper_view(opt_bound_view(left), opt_bound_view(right)) == Some(opt_bound_view(b)),
        },
{
    match (left, right) {
        (Some(l), Some(rt)) => match compare_float_bits(l.value, rt.value) {
            Some(c) => if c < 0 {
                Some(Some(rt))
            } else if c > 0 {
                Some(Some(l))
            } else {
                Some(Some(NumericIntervalBound { value: l.value, inclusive: l.inclusive || rt.inclusive }))
            },
            None => None,
        },
        _ => Some(None),
    }
}

/// Whether a lower and an upper end leave no number between them: the
/// lower above the upper, or both at one value with one of them excluded.
pub fn interval_bounds_are_empty(lower: Option<NumericIntervalBound>, upper: Option<NumericIntervalBound>) -> (r: bool)
    ensures
        r == bounds_empty_view(opt_bound_view(lower), opt_bound_view(upper)),
        forall|x: (int, int)| x.1 > 0 && r ==> !(#[trigger] lower_admits(opt_bound_view(lower), x) && upper_admits(opt_bound_view(upper), x)),
{
    proof {
        assert forall|x: (int, int)| x.1 > 0 implies bounds_empty_view(opt_bound_view(lower), opt_bound_view(upper))
            ==> !(#[trigger] lower_admits(opt_bound_view(lower), x) && upper_admits(opt_bound_view(upper), x)) by {
            lemma_bounds_empty_sound(opt_bound_view(lower), opt_bound_view(upper), x);
        }
    }
    match (lower, upper) {
        (Some(l), Some(u)) => match compare_float_bits(l.value, u.value) {
            Some(c) => c > 0 || (c == 0 && !(l.inclusive && u.inclusive)),
            None => false,
        },
        _ => false,
    }
}

impl NumericInterval {
    /// The range holding every number.
    pub fn unbounded() -> (r: Self)
        ensures
            interval_view(r) == unbounded_view(),
    {
        NumericInterval { lower: None, upper: None, empty: false }
    }

    /// The range holding no number (its ends are an excluded zero).
    pub fn empty() -> (r: Self)
        ensures
            interval_view(r) == empty_view(),
    {
        proof {
            assert(float_exponent_field(0u64) == 0 && float_fraction_field(0u64) == 0);
        }
        NumericInterval {
            lower: Some(NumericIntervalBound { value: 0, inclusive: false }),
            upper: Some(NumericIntervalBound { value: 0, inclusive: false }),
            empty: true,
        }
    }

    /// The intersection of two ranges: empty when either is, otherwise the
    /// tighter ends, marked empty when they leave no room.
    pub fn intersect(self, other: Self) -> (r: Self)
        ensures
            interval_view(r) == intersect_view(interval_view(self), interval_view(other)),
    {
        let mut this = self;
        if this.empty || other.empty {
            this.empty = true;
            return this;
        }
        this.lower = tighter_lower(this.lower, other.lower);
        this.upper = tighter_upper(this.upper, other.upper);
        if interval_bounds_are_empty(this.lower, this.upper) {
            this.empty = true;
        }
        this
    }

    /// The smallest range holding both: the other one when one is empty,
    /// otherwise the looser ends; `None` when two ends cannot be compared.
    pub fn hull(self, other: Self) -> (r: Option<Self>)
        ensures
            opt_interval_view(r) == hull_view(interval_view(self), interval_view(other)),
    {
        if self.empty {
            return Some(other);
        }
        if other.empty {
            return Some(self);
        }
        let lower = match looser_lower(self.lower, other.lower) {
            Some(b) => b,
            None => return None,
        };
        let upper = match looser_upper(self.upper, other.upper) {
            Some(b) => b,
            None => return None,
        };
        Some(NumericInterval { lower, upper, empty: false })
    }
}

/// Whether an outer lower end admits everything an inner one does.
pub open spec fn lower_contains_view(outer: Option<BoundView>, inner: Option<BoundView>) -> bool {
    match (outer, inner) {
        (None, _) => true,
        (Some(_), None) => false,
        (Some(o), Some(i)) => match view_order(i, o) {
            Some(c) => c > 0 || (c == 0 && (o.1 || !i.1)),
            None => false,
        },
    }
}

/// Whether an outer upper end admits everything an inner one does.
pub open spec fn upper_contains_view(outer: Option<BoundView>, inner: Option<BoundView>) -> bool {
    match (outer, inner) {
        (None, _) => true,
        (Some(_), None) => false,
        (Some(o), Some(i)) => match view_order(i, o) {
            Some(c) => c < 0 || (c == 0 && (o.1 || !i.1)),
            None => false,
        },
    }
}

/// Whether one range holds another: the inner is empty, or the outer is
/// not and both its ends admit the inner's.
pub open spec fn contains_view(outer: IntervalView, inner: IntervalView) -> bool {
    inner.2 || (!outer.2 && lower_contains_view(outer.0, inner.0) && upper_contains_view(outer.1, inner.1))
}

/// Whether every number of the first range lies below every number of the
/// second: the first's upper end below the second's lower end, or at the
/// same value with one of them excluded.
pub open spec fn strictly_before_view(left: IntervalView, right: IntervalView) -> bool {
    match (left.1, right.0) {
        (Some(u), Some(l)) => match view_order(u, l) {
            Some(c) => c < 0 || (c == 0 && !(u.1 && l.1)),
            None => false,
        },
        _ => false,
    }
}

/// Law: a range holds every number of a range it contains.
pub proof fn lemma_contains_sound(outer: IntervalView, inner: IntervalView, x: (int, int))
    requires
        x.1 > 0,
    ensures
        contains_view(outer, inner) && interval_admits(inner, x) ==> interval_admits(outer, x),
{
    let q = x.1;
    match (outer.0, inner.0) {
        (Some(o), Some(i)) => {
            assert(o.0 < i.0 ==> o.0 * q < i.0 * q) by (nonlinear_arith)
                requires
                    q > 0;
        },
        _ => {},
    }
    match (outer.1, inner.1) {
        (Some(o), Some(i)) => {
            assert(i.0 < o.0 ==> i.0 * q < o.0 * q) by (nonlinear_arith)
                requires
                    q > 0;
        },
        _ => {},
    }
}

/// Law: a range strictly before another shares no number with it.
pub proof fn lemma_strictly_before_sound(left: IntervalView, right: IntervalView, x: (int, int))
    requires
        x.1 > 0,
    ensures
        strictly_before_view(left, right) ==> !(interval_admits(left, x) && interval_admits(right, x)),
{
    match (left.1, right.0) {
        (Some(u), Some(l)) => {
            let q = x.1;
            assert(u.0 < l.0 ==> u.0 * q < l.0 * q) by (nonlinear_arith)
                requires
                    q > 0;
        },
        _ => {},
    }
}

/// Whether an outer lower end admits everything an inner one does.
pub fn lower_bound_contains(outer: Option<NumericIntervalBound>, inner: Option<NumericIntervalBound>) -> (r: bool)
    ensures
        r == lower_contains_view(opt_bound_view(outer), opt_bound_view(inner)),
{
    match (outer, inner) {
        (None, _) => true,
        (Some(_), None) => false,
        (Some(o), Some(i)) => match compare_float_bits(i.value, o.value) {
            Some(c) => c > 0 || (c == 0 && (o.inclusive || !i.inclusive)),
            None => false,
        },
    }
}

/// Whether an outer upper end admits everything an inner one does.
pub fn upper_bound_contains(outer: Option<NumericIntervalBound>, inner: Option<NumericIntervalBound>) -> (r: bool)
    ensures
        r == upper_contains_view(opt_bound_view(outer), opt_bound_view(inner)),
{
    match (outer, inner) {
        (None, _) => true,
        (Some(_), None) => false,
        (Some(o), Some(i)) => match compare_float_bits(i.value, o.value) {
            Some(c) => c < 0 || (c == 0 && (o.inclusive || !i.inclusive)),
            None => false,
        },
    }
}

/// Whether `outer` holds every number of `inner`.
pub fn numeric_interval_contains(outer: NumericInterval, inner: NumericInterval) -> (r: bool)
    ensures
        r == contains_view(interval_view(outer), interval_view(inner)),
        forall|x: (int, int)| x.1 > 0 && r && #[trigger] interval_admits(interval_view(inner), x)
            ==> interval_admits(interval_view(outer), x),
{
    proof {
        assert forall|x: (int, int)| x.1 > 0 && contains_view(interval_view(outer), interval_view(inner))
            && #[trigger] interval_admits(interval_view(inner), x) implies interval_admits(interval_view(outer), x) by {
            lemma_contains_sound(interval_view(outer), interval_view(inner), x);
        }
    }
    if inner.empty {
        return true;
    }
    if outer.empty {
        return false;
    }
    lower_bound_contains(outer.lower, inner.lower) && upper_bound_contains(outer.upper, inner.upper)
}

/// Whether every number of `left` lies below every number of `right`.
pub fn interval_strictly_before(left: NumericInterval, right: NumericInterval) -> (r: bool)
    ensures
        r == strictly_before_view(interval_view(left), interval_view(right)),
        forall|x: (int, int)| x.1 > 0 && r ==> !(#[trigger] interval_admits(interval_view(left), x)
            && interval_admits(interval_view(right), x)),
{
    proof {
        assert forall|x: (int, int)| x.1 > 0 && strictly_before_view(interval_view(left), interval_view(right))
            implies !(#[trigger] interval_admits(interval_view(left), x) && interval_admits(interval_view(right), x)) by {
            lemma_strictly_before_sound(interval_view(left), interval_view(right), x);
        }
    }
    match (left.upper, right.lower) {
        (Some(u), Some(l)) => match compare_float_bits(u.value, l.value) {
            Some(c) => c < 0 || (c == 0 && !(u.inclusive && l.inclusive)),
            None => false,
        },
        _ => false,
    }
}

/// The double equal to the integer `v` as an included end, when `|v|` is at
/// most 2^53 - 1 (so that no rounding happens); `None` beyond.
pub open spec fn integer_endpoint_view(v: int) -> Option<BoundView> {
    if -MAX_EXACT_INTEGER <= v <= MAX_EXACT_INTEGER {
        Some((v * pow2(1074), true, false))
    } else {
        None
    }
}

/// A JSON number as an included end: integers as above, finite doubles as
/// they are; `None` for integers too large to hold exactly and for
/// non-finite bit patterns.
pub open spec fn number_endpoint_view(n: JsonNumber) -> Option<BoundView> {
    match n {
        JsonNumber::PosInt(u) => integer_endpoint_view(u as int),
        JsonNumber::NegInt(i) => integer_endpoint_view(i as int),
        JsonNumber::Float(bits) => if float_exponent_field(bits) != 0x7ff {
            Some((scaled_value(bits), true, false))
        } else {
            None
        },
    }
}

/// The range holding exactly the value of one end.
pub open spec fn point_view(e: BoundView) -> IntervalView {
    (Some(e), Some(e), false)
}

/// The hull of the numbers among the first `n` literals: `Some(None)` when
/// there is none, `None` when one has no exact end or two ends cannot be
/// compared.
pub open spec fn literal_hull_fold(values: Seq<JsonValue>, n: nat) -> Option<Option<IntervalView>>
    decreases n,
{
    if n == 0 || n > values.len() {
        Some(None)
    } else {
        match literal_hull_fold(values, (n - 1) as nat) {
            None => None,
            Some(acc) => match values[n - 1] {
                JsonValue::Number(x) => match number_endpoint_view(x) {
                    None => None,
                    Some(e) => match acc {
                        None => Some(Some(point_view(e))),
                        Some(a) => match hull_view(a, point_view(e)) {
                            None => None,
                            Some(h) => Some(Some(h)),
                        },
                    },
                },
                _ => Some(acc),
            },
        }
    }
}

/// The range of the numbers among some literals (empty when there is none).
pub open spec fn literal_hull(values: Seq<JsonValue>) -> Option<IntervalView> {
    match literal_hull_fold(values, values.len()) {
        None => None,
        Some(None) => Some(empty_view()),
        Some(Some(h)) => Some(h),
    }
}

/// The end a `minimum`/`maximum`-style bound gives.
pub open spec fn number_bound_view(b: NumberBound) -> Option<BoundView> {
    match b {
        NumberBound::Unbounded => None,
        NumberBound::Inclusive(v) => Some((scaled_value(v), true, float_is_nan(v))),
        NumberBound::Exclusive(v) => Some((scaled_value(v), false, float_is_nan(v))),
    }
}

/// The end an integer bound gives: `Some(None)` without a bound, `None`
/// when the bound has no exact double.
pub open spec fn integer_bound_view(b: Option<i64>) -> Option<Option<BoundView>> {
    match b {
        None => Some(None),
        Some(v) => match integer_endpoint_view(v as int) {
            None => None,
            Some(e) => Some(Some(e)),
        },
    }
}

/// A range narrowed by an enumeration's numbers, when their range is known.
pub open spec fn with_enumeration(iv: IntervalView, enumeration: Option<Vec<JsonValue>>) -> IntervalView {
    match enumeration {
        Some(values) => match literal_hull(values@) {
            Some(e) => intersect_view(iv, e),
            None => iv,
        },
        None => iv,
    }
}

/// The number range of a schema, from its shape:
/// - `false` holds no number; `const` and `enum` give their numbers;
/// - a number schema gives its bounds, an integer schema its bounds (no
///   range when a bound has no exact double), both narrowed by their
///   enumeration;
/// - `if` with both branches gives the hull of the branch ranges, with one
///   branch only when the condition decides every number;
/// - `allOf` intersects the bounded conjuncts, `anyOf`/`oneOf` take the hull
///   of the branches that may accept numbers;
/// - anything else has no range (`None`).
pub open spec fn numeric_bound(s: SchemaNode) -> Option<IntervalView>
    decreases s, 0nat,
{
    match s.kind {
        SchemaNodeKind::BoolSchema(b) => if b { None } else { Some(empty_view()) },
        SchemaNodeKind::Const(v) => match v {
            JsonValue::Number(x) => match number_endpoint_view(x) {
                Some(e) => Some(point_view(e)),
                None => None,
            },
            _ => Some(empty_view()),
        },
        SchemaNodeKind::Enum(values) => literal_hull(values@),
        SchemaNodeKind::Number { bounds, enumeration, .. } => Some(with_enumeration(
            (number_bound_view(bounds.lower), number_bound_view(bounds.upper), false),
            enumeration,
        )),
        SchemaNodeKind::Integer { bounds, enumeration, .. } => match (integer_bound_view(bounds.lower), integer_bound_view(bounds.upper)) {
            (Some(lo), Some(hi)) => Some(with_enumeration((lo, hi, false), enumeration)),
            _ => None,
        },
        SchemaNodeKind::IfThenElse { if_schema, then_schema, else_schema } => match (then_schema, else_schema) {
            (Some(t), Some(e)) => match (numeric_bound(*t), numeric_bound(*e)) {
                (Some(a), Some(b)) => hull_view(a, b),
                _ => None,
            },
            (Some(t), None) => if obviously_accepts_type(*if_schema, JSON_TYPE_NUMBER) {
                numeric_bound(*t)
            } else {
                None
            },
            (None, Some(e)) => if !may_have_type(*if_schema, JSON_TYPE_NUMBER) {
                numeric_bound(*e)
            } else {
                None
            },
            (None, None) => None,
        },
        SchemaNodeKind::AllOf(children) => numeric_bound_all(children@, children@.len()),
        SchemaNodeKind::AnyOf(children) => numeric_union(numeric_bound_any(children@, children@.len())),
        SchemaNodeKind::OneOf(children) => numeric_union(numeric_bound_any(children@, children@.len())),
        _ => None,
    }
}

/// The intersection of the bounded ones among the first `n` conjuncts
/// (`None` when none is bounded).
pub open spec fn numeric_bound_all(children: Seq<SchemaNode>, n: nat) -> Option<IntervalView>
    decreases children, n,
{
    if n == 0 || n > children.len() {
        None
    } else {
        let prev = numeric_bound_all(children, (n - 1) as nat);
        match numeric_bound(children[n - 1]) {
            None => prev,
            Some(iv) => Some(intersect_view(
                match prev {
                    None => unbounded_view(),
                    Some(a) => a,
                },
                iv,
            )),
        }
    }
}

/// The hull over the first `n` branches that may accept numbers: `None`
/// when one of them has no range or two ranges have no hull, `Some(None)`
/// when there is none.
pub open spec fn numeric_bound_any(children: Seq<SchemaNode>, n: nat) -> Option<Option<IntervalView>>
    decreases children, n,
{
    if n == 0 || n > children.len() {
        Some(None)
    } else {
        match numeric_bound_any(children, (n - 1) as nat) {
            None => None,
            Some(acc) => if !may_have_type(children[n - 1], JSON_TYPE_NUMBER) {
                Some(acc)
            } else {
                match numeric_bound(children[n - 1]) {
                    None => None,
                    Some(iv) => match acc {
                        None => Some(Some(iv)),
                        Some(a) => match hull_view(a, iv) {
                            None => None,
                            Some(h) => Some(Some(h)),
                        },
                    },
                }
            },
        }
    }
}

/// The range of a union fold (empty when no branch may hold a number).
pub open spec fn numeric_union(acc: Option<Option<IntervalView>>) -> Option<IntervalView> {
    match acc {
        None => None,
        Some(None) => Some(empty_view()),
        Some(Some(iv)) => Some(iv),
    }
}

/// The end a `minimum`/`maximum`-style bound gives.
pub(crate) fn interval_bound_from(bound: NumberBound) -> (r: Option<NumericIntervalBound>)
    ensures
        opt_bound_view(r) == number_bound_view(bound),
{
    match bound {
        NumberBound::Unbounded => None,
        NumberBound::Inclusive(value) => Some(NumericIntervalBound { value, inclusive: true }),
        NumberBound::Exclusive(value) => Some(NumericIntervalBound { value, inclusive: false }),
    }
}

/// The integer `value` as an included end, when a double holds it exactly.
pub fn integer_endpoint(value: i64) -> (r: Option<NumericIntervalBound>)
    ensures
        opt_bound_view(r) == integer_endpoint_view(value as int),
{
    if -MAX_EXACT_INTEGER <= value && value <= MAX_EXACT_INTEGER {
        Some(NumericIntervalBound { value: small_integer_bits(value), inclusive: true })
    } else {
        None
    }
}

/// A JSON number as an included end (see `number_endpoint_view`).
pub fn json_number_endpoint(number: &JsonNumber) -> (r: Option<NumericIntervalBound>)
    ensures
        opt_bound_view(r) == number_endpoint_view(*number),
{
    match number {
        JsonNumber::PosInt(u) => if *u <= 9_007_199_254_740_991u64 {
            integer_endpoint(*u as i64)
        } else {
            None
        },
        JsonNumber::NegInt(i) => integer_endpoint(*i),
        JsonNumber::Float(bits) => if (*bits / 0x10_0000_0000_0000) % 0x800 != 0x7ff {
            proof {
                assert(!float_is_nan(*bits));
            }
            Some(NumericIntervalBound { value: *bits, inclusive: true })
        } else {
            None
        },
    }
}

/// Once the literal fold has failed, it stays failed.
proof fn lemma_literal_hull_none_persists(values: Seq<JsonValue>, n: nat, m: nat)
    requires
        n <= m <= values.len(),
        literal_hull_fold(values, n) is None,
    ensures
        literal_hull_fold(values, m) is None,
    decreases m - n,
{
    if n < m {
        lemma_literal_hull_none_persists(values, n, (m - 1) as nat);
    }
}

/// The range of the numbers among `values` (see `literal_hull`).
pub fn literal_numeric_hull(values: &Vec<JsonValue>) -> (r: Option<NumericInterval>)
    ensures
        opt_interval_view(r) == literal_hull(values@),
{
    let mut hull: Option<NumericInterval> = None;
    let mut i: usize = 0;
    while i < values.len()
        invariant
            i <= values@.len(),
            literal_hull_fold(values@, i as nat) == Some(opt_interval_view(hull)),
        decreases values@.len() - i,
    {
        match &values[i] {
            JsonValue::Number(number) => {
                let endpoint = match json_number_endpoint(number) {
                    Some(e) => e,
                    None => {
                        proof { lemma_literal_hull_none_persists(values@, (i + 1) as nat, values@.len()); }
                        return None;
                    },
                };
                let singleton = NumericInterval { lower: Some(endpoint), upper: Some(endpoint), empty: false };
                hull = Some(match hull {
                    Some(current) => match current.hull(singleton) {
                        Some(joined) => joined,
                        None => {
                            proof { lemma_literal_hull_none_persists(values@, (i + 1) as nat, values@.len()); }
                            return None;
                        },
                    },
                    None => singleton,
                });
            },
            _ => {},
        }
        i = i + 1;
    }
    match hull {
        Some(h) => Some(h),
        None => Some(NumericInterval::empty()),
    }
}

/// A range narrowed by the numbers of an optional enumeration, when their
/// range is known.
fn narrow_by_enumeration(interval: NumericInterval, enumeration: &Option<Vec<JsonValue>>) -> (r: NumericInterval)
    ensures
        interval_view(r) == with_enumeration(interval_view(interval), *enumeration),
{
    match enumeration {
        Some(values) => match literal_numeric_hull(values) {
            Some(enum_interval) => interval.intersect(enum_interval),
            None => interval,
        },
        None => interval,
    }
}

/// The number range of `schema` (see `numeric_bound`): `None` when the
/// schema's shape gives no range.
pub fn numeric_interval_bound(schema: &SchemaNode) -> (r: Option<NumericInterval>)
    ensures
        opt_interval_view(r) == numeric_bound(*schema),
    decreases *schema, 1nat,
{
    match &schema.kind {
        SchemaNodeKind::BoolSchema(b) => if *b {
            None
        } else {
            Some(NumericInterval::empty())
        },
        SchemaNodeKind::Const(value) => match value {
            JsonValue::Number(number) => match json_number_endpoint(number) {
                Some(endpoint) => Some(NumericInterval { lower: Some(endpoint), upper: Some(endpoint), empty: false }),
                None => None,
            },
            _ => Some(NumericInterval::empty()),
        },
        SchemaNodeKind::Enum(values) => literal_numeric_hull(values),
        SchemaNodeKind::Number { bounds, enumeration, .. } => {
            let interval = NumericInterval {
                lower: interval_bound_from(bounds.lower),
                upper: interval_bound_from(bounds.upper),
                empty: false,
            };
            Some(narrow_by_enumeration(interval, enumeration))
        },
        SchemaNodeKind::Integer { bounds, enumeration, .. } => {
            let lower = match bounds.lower {
                Some(value) => match integer_endpoint(value) {
                    Some(endpoint) => Some(endpoint),
                    None => return None,
                },
                None => None,
            };
            let upper = match bounds.upper {
                Some(value) => match integer_endpoint(value) {
                    Some(endpoint) => Some(endpoint),
                    None => return None,
                },
                None => None,
            };
            let interval = NumericInterval { lower, upper, empty: false };
            Some(narrow_by_enumeration(interval, enumeration))
        },
        SchemaNodeKind::IfThenElse { if_schema, then_schema, else_schema } => match (then_schema, else_schema) {
            (Some(then_schema), Some(else_schema)) => {
                match (numeric_interval_bound(then_schema), numeric_interval_bound(else_schema)) {
                    (Some(then_interval), Some(else_interval)) => then_interval.hull(else_interval),
                    _ => None,
                }
            },
            (Some(then_schema), None) => {
                let whole = whole_json_types_accepted_mask(if_schema);
                proof { crate::bits::lemma_single_bits(JSON_TYPE_NUMBER, JSON_TYPE_NUMBER); }
                if whole & JSON_TYPE_NUMBER != 0 {
                    numeric_interval_bound(then_schema)
                } else {
                    None
                }
            },
            (None, Some(else_schema)) => {
                let possible = possible_json_type_mask(if_schema);
                if possible & JSON_TYPE_NUMBER == 0 {
                    numeric_interval_bound(else_schema)
                } else {
                    None
                }
            },
            (None, None) => None,
        },
        SchemaNodeKind::AllOf(children) => {
            let mut interval = NumericInterval::unbounded();
            let mut saw_numeric_bound = false;
            let mut i: usize = 0;
            while i < children.len()
                invariant
                    i <= children@.len(),
                    schema.kind == SchemaNodeKind::AllOf(*children),
                    saw_numeric_bound ==> numeric_bound_all(children@, i as nat) == Some(interval_view(interval)),
                    !saw_numeric_bound ==> numeric_bound_all(children@, i as nat) is None
                        && interval_view(interval) == unbounded_view(),
                decreases children@.len() - i,
            {
                proof {
                    assert(decreases_to!(*schema => schema.kind));
                    assert(decreases_to!(schema.kind => schema.kind->AllOf_0));
                    assert(decreases_to!(*children => children[i as int]));
                }
                match numeric_interval_bound(&children[i]) {
                    Some(child_interval) => {
                        interval = interval.intersect(child_interval);
                        saw_numeric_bound = true;
                    },
                    None => {},
                }
                i = i + 1;
            }
            if saw_numeric_bound {
                Some(interval)
            } else {
                None
            }
        },
        SchemaNodeKind::AnyOf(children) => match numeric_union_bound(schema, children) {
            None => None,
            Some(hull) => match hull {
                Some(iv) => Some(iv),
                None => Some(NumericInterval::empty()),
            },
        },
        SchemaNodeKind::OneOf(children) => match numeric_union_bound(schema, children) {
            None => None,
            Some(hull) => match hull {
                Some(iv) => Some(iv),
                None => Some(NumericInterval::empty()),
            },
        },
        _ => None,
    }
}

/// Once a union fold has failed, it stays failed.
proof fn lemma_numeric_bound_any_none_persists(children: Seq<SchemaNode>, n: nat, m: nat)
    requires
        n <= m <= children.len(),
        numeric_bound_any(children, n) is None,
    ensures
        numeric_bound_any(children, m) is None,
    decreases m - n,
{
    if n < m {
        lemma_numeric_bound_any_none_persists(children, n, (m - 1) as nat);
    }
}

/// The hull over the number branches of a union `schema` with branches
/// `children` (see `numeric_bound_any`).
fn numeric_union_bound(schema: &SchemaNode, children: &Vec<SchemaNode>) -> (r: Option<Option<NumericInterval>>)
    requires
        schema.kind == SchemaNodeKind::AnyOf(*children) || schema.kind == SchemaNodeKind::OneOf(*children),
    ensures
        match r {
            None => numeric_bound_any(children@, children@.len()) is None,
            Some(h) => numeric_bound_any(children@, children@.len()) == Some(opt_interval_view(h)),
        },
    decreases *schema, 0nat,
{
    let mut hull: Option<NumericInterval> = None;
    let mut i: usize = 0;
    while i < children.len()
        invariant
            i <= children@.len(),
            schema.kind == SchemaNodeKind::AnyOf(*children) || schema.kind == SchemaNodeKind::OneOf(*children),
            numeric_bound_any(children@, i as nat) == Some(opt_interval_view(hull)),
        decreases children@.len() - i,
    {
        proof {
            assert(decreases_to!(*schema => schema.kind));
            if schema.kind == SchemaNodeKind::AnyOf(*children) {
                assert(decreases_to!(schema.kind => schema.kind->AnyOf_0));
            } else {
                assert(decreases_to!(schema.kind => schema.kind->OneOf_0));
            }
            assert(decreases_to!(*children => children[i as int]));
        }
        let possible = possible_json_type_mask(&children[i]);
        proof { crate::bits::lemma_single_bits(JSON_TYPE_NUMBER, JSON_TYPE_NUMBER); }
        if possible & JSON_TYPE_NUMBER != 0 {
            match numeric_interval_bound(&children[i]) {
                Some(child_interval) => {
                    hull = match hull {
                        Some(acc) => match acc.hull(child_interval) {
                            Some(joined) => Some(joined),
                            None => {
                                proof { lemma_numeric_bound_any_none_persists(children@, (i + 1) as nat, children@.len()); }
                                return None;
                            },
                        },
                        None => Some(child_interval),
                    };
                },
                None => {
                    proof { lemma_numeric_bound_any_none_persists(children@, (i + 1) as nat, children@.len()); }
                    return None;
                },
            }
        }
        i = i + 1;
    }
    Some(hull)
}

/// The exact value of a JSON number has a positive denominator.
pub proof fn lemma_number_denominator(n: JsonNumber)
    ensures
        number_rational(n).1 > 0,
{
    match n {
        JsonNumber::Float(bits) => lemma_float_rational_scaled(bits),
        _ => {},
    }
}

/// A number's own end admits it.
proof fn lemma_endpoint_admits(n: JsonNumber)
    requires
        number_endpoint_view(n) is Some,
    ensures
        interval_admits(point_view(number_endpoint_view(n)->0), number_rational(n)),
{
    let big = pow2(1074) as int;
    match n {
        JsonNumber::PosInt(u) => {
            assert((u * big) * 1 == u * big);
        },
        JsonNumber::NegInt(i) => {
            assert((i * big) * 1 == i * big);
        },
        JsonNumber::Float(bits) => {
            lemma_float_rational_scaled(bits);
        },
    }
}

/// Every number among the first `k` literals lies in their hull.
proof fn lemma_literal_hull_fold_sound(values: Seq<JsonValue>, k: nat, x: JsonNumber)
    requires
        k <= values.len(),
        literal_hull_fold(values, k) is Some,
    ensures
        forall|i: int| 0 <= i < k && #[trigger] values[i] == JsonValue::Number(x)
            ==> literal_hull_fold(values, k)->0 is Some
                && interval_admits(literal_hull_fold(values, k)->0->0, number_rational(x)),
    decreases k,
{
    if k > 0 {
        lemma_literal_hull_fold_sound(values, (k - 1) as nat, x);
        lemma_number_denominator(x);
        match values[k - 1] {
            JsonValue::Number(y) => {
                lemma_endpoint_admits(y);
                let e = number_endpoint_view(y)->0;
                match literal_hull_fold(values, (k - 1) as nat)->0 {
                    Some(a) => {
                        lemma_hull_sound(a, point_view(e), number_rational(x));
                    },
                    None => {},
                }
            },
            _ => {},
        }
    }
}

/// An enumeration's numbers lie in its literal range.
proof fn lemma_enumeration_hull_sound(values: Vec<JsonValue>, n: JsonNumber)
    requires
        literal_hull(values@) is Some,
        exists|i: int| 0 <= i < values@.len() && json_eq(JsonValue::Number(n), #[trigger] values@[i]),
    ensures
        interval_admits(literal_hull(values@)->0, number_rational(n)),
{
    let i = choose|i: int| 0 <= i < values@.len() && json_eq(JsonValue::Number(n), #[trigger] values@[i]);
    assert(values@[i] == JsonValue::Number(n));
    lemma_literal_hull_fold_sound(values@, values@.len(), n);
}

/// Narrowing by an enumeration keeps every number the enumeration allows.
proof fn lemma_with_enumeration_sound(iv: IntervalView, enumeration: Option<Vec<JsonValue>>, n: JsonNumber)
    ensures
        interval_admits(iv, number_rational(n)) && enumeration_ok(enumeration, JsonValue::Number(n))
            ==> interval_admits(with_enumeration(iv, enumeration), number_rational(n)),
{
    lemma_number_denominator(n);
    match enumeration {
        Some(values) => {
            if literal_hull(values@) is Some && enumeration_ok(enumeration, JsonValue::Number(n)) {
                lemma_enumeration_hull_sound(values, n);
                lemma_intersect_sound(iv, literal_hull(values@)->0, number_rational(n));
            }
        },
        None => {},
    }
}

/// An integer bound, read as a double, admits what it admits as an integer.
proof fn lemma_integer_bound_admits(l: int, x: (int, int))
    requires
        x.1 > 0,
        x.0 % x.1 == 0,
    ensures
        l <= x.0 / x.1 ==> (l * pow2(1074)) * x.1 <= x.0 * pow2(1074),
        x.0 / x.1 <= l ==> x.0 * pow2(1074) <= (l * pow2(1074)) * x.1,
{
    lemma_pow2_pos(1074);
    let big = pow2(1074) as int;
    let (p, q) = x;
    let k = p / q;
    lemma_fundamental_div_mod(p, q);
    assert(p == q * k);
    assert(l <= k ==> (l * big) * q <= p * big) by (nonlinear_arith)
        requires
            p == q * k,
            q > 0,
            big > 0;
    assert(k <= l ==> p * big <= (l * big) * q) by (nonlinear_arith)
        requires
            p == q * k,
            q > 0,
            big > 0;
}

/// Law: every number a schema accepts lies in the schema's number range.
pub proof fn lemma_numeric_bound_sound(s: SchemaNode, n: JsonNumber, rx: spec_fn(Seq<char>, Seq<char>) -> bool)
    requires
        numeric_bound(s) is Some,
    ensures
        accepts(s, JsonValue::Number(n), rx) ==> interval_admits(numeric_bound(s)->0, number_rational(n)),
    decreases s, 0nat,
{
    let v = JsonValue::Number(n);
    let x = number_rational(n);
    lemma_number_denominator(n);
    match s.kind {
        SchemaNodeKind::Const(c) => {
            if accepts(s, v, rx) {
                assert(c == v);
                lemma_endpoint_admits(n);
            }
        },
        SchemaNodeKind::Enum(values) => {
            if accepts(s, v, rx) {
                lemma_enumeration_hull_sound(values, n);
            }
        },
        SchemaNodeKind::Number { bounds, enumeration, .. } => {
            match bounds.lower {
                NumberBound::Inclusive(b) => lemma_float_vs_rational(b, x),
                NumberBound::Exclusive(b) => lemma_float_vs_rational(b, x),
                NumberBound::Unbounded => {},
            }
            match bounds.upper {
                NumberBound::Inclusive(b) => lemma_float_vs_rational(b, x),
                NumberBound::Exclusive(b) => lemma_float_vs_rational(b, x),
                NumberBound::Unbounded => {},
            }
            lemma_with_enumeration_sound(
                (number_bound_view(bounds.lower), number_bound_view(bounds.upper), false), enumeration, n);
        },
        SchemaNodeKind::Integer { bounds, enumeration, .. } => {
            if accepts(s, v, rx) {
                match bounds.lower {
                    Some(l) => lemma_integer_bound_admits(l as int, x),
                    None => {},
                }
                match bounds.upper {
                    Some(u) => lemma_integer_bound_admits(u as int, x),
                    None => {},
                }
                let lo = integer_bound_view(bounds.lower)->0;
                let hi = integer_bound_view(bounds.upper)->0;
                assert(interval_admits((lo, hi, false), x));
                lemma_with_enumeration_sound((lo, hi, false), enumeration, n);
            }
        },
        SchemaNodeKind::IfThenElse { if_schema, then_schema, else_schema } => {
            lemma_type_facts_sound(*if_schema, v, rx);
            match (then_schema, else_schema) {
                (Some(a), Some(b)) => {
                    lemma_numeric_bound_sound(*a, n, rx);
                    lemma_numeric_bound_sound(*b, n, rx);
                    lemma_hull_sound(numeric_bound(*a)->0, numeric_bound(*b)->0, x);
                },
                (Some(a), None) => {
                    lemma_numeric_bound_sound(*a, n, rx);
                },
                (None, Some(b)) => {
                    lemma_numeric_bound_sound(*b, n, rx);
                },
                (None, None) => {},
            }
        },
        SchemaNodeKind::AllOf(children) => {
            assert(decreases_to!(s => s.kind));
            lemma_numeric_bound_all_sound(children@, children@.len(), n, rx);
        },
        SchemaNodeKind::AnyOf(children) => {
            lemma_numeric_bound_any_sound(children@, children@.len(), n, rx);
            if accepts(s, v, rx) {
                let i = choose|i: int| 0 <= i < children@.len() && accepts(#[trigger] children@[i], v, rx);
                assert(accepts(children@[i], v, rx));
            }
        },
        SchemaNodeKind::OneOf(children) => {
            lemma_numeric_bound_any_sound(children@, children@.len(), n, rx);
            if accepts(s, v, rx) {
                let i = choose|i: int| 0 <= i < children@.len() && accepts(#[trigger] children@[i], v, rx)
                    && forall|j: int| 0 <= j < children@.len() && j != i ==> !accepts(#[trigger] children@[j], v, rx);
                assert(accepts(children@[i], v, rx));
            }
        },
        _ => {},
    }
}

/// The `allOf` fold is sound: a number every conjunct accepts lies in it.
proof fn lemma_numeric_bound_all_sound(children: Seq<SchemaNode>, k: nat, n: JsonNumber, rx: spec_fn(Seq<char>, Seq<char>) -> bool)
    requires
        k <= children.len(),
        numeric_bound_all(children, k) is Some,
    ensures
        (forall|i: int| 0 <= i < k ==> accepts(#[trigger] children[i], JsonValue::Number(n), rx))
            ==> interval_admits(numeric_bound_all(children, k)->0, number_rational(n)),
    decreases children, k,
{
    let v = JsonValue::Number(n);
    let x = number_rational(n);
    lemma_number_denominator(n);
    let prev = numeric_bound_all(children, (k - 1) as nat);
    if prev is Some {
        lemma_numeric_bound_all_sound(children, (k - 1) as nat, n, rx);
    }
    if numeric_bound(children[k - 1]) is Some {
        lemma_numeric_bound_sound(children[k - 1], n, rx);
        let a = match prev {
            None => unbounded_view(),
            Some(a) => a,
        };
        lemma_intersect_sound(a, numeric_bound(children[k - 1])->0, x);
    }
    if forall|i: int| 0 <= i < k ==> accepts(#[trigger] children[i], v, rx) {
        assert(accepts(children[k - 1], v, rx));
        assert(forall|i: int| 0 <= i < k - 1 ==> accepts(#[trigger] children[i], v, rx));
    }
}

/// The union fold is sound: a number some branch accepts lies in the hull,
/// and with no number branch no branch accepts a number.
proof fn lemma_numeric_bound_any_sound(children: Seq<SchemaNode>, k: nat, n: JsonNumber, rx: spec_fn(Seq<char>, Seq<char>) -> bool)
    requires
        k <= children.len(),
        numeric_bound_any(children, k) is Some,
    ensures
        match numeric_bound_any(children, k)->0 {
            None => forall|i: int| 0 <= i < k ==> !accepts(#[trigger] children[i], JsonValue::Number(n), rx),
            Some(iv) => forall|i: int| 0 <= i < k && accepts(#[trigger] children[i], JsonValue::Number(n), rx)
                ==> interval_admits(iv, number_rational(n)),
        },
    decreases children, k,
{
    let v = JsonValue::Number(n);
    let x = number_rational(n);
    lemma_number_denominator(n);
    if k > 0 {
        lemma_numeric_bound_any_sound(children, (k - 1) as nat, n, rx);
        lemma_type_facts_sound(children[k - 1], v, rx);
        if may_have_type(children[k - 1], JSON_TYPE_NUMBER) {
            lemma_numeric_bound_sound(children[k - 1], n, rx);
            match numeric_bound_any(children, (k - 1) as nat)->0 {
                Some(a) => lemma_hull_sound(a, numeric_bound(children[k - 1])->0, x),
                None => {},
            }
        }
    }
}

/// The disjointness test on two number ranges.
pub open spec fn numeric_bounds_disjoint(left: SchemaNode, right: SchemaNode) -> bool {
    match (numeric_bound(left), numeric_bound(right)) {
        (Some(a), Some(b)) => a.2 || b.2 || strictly_before_view(a, b) || strictly_before_view(b, a),
        _ => false,
    }
}

/// Whether the number ranges of two schemas are known and do not overlap;
/// then no number is accepted by both.
pub fn numeric_intervals_are_disjoint(left: &SchemaNode, right: &SchemaNode) -> (r: bool)
    ensures
        r == numeric_bounds_disjoint(*left, *right),
        r ==> forall|n: JsonNumber, rx: spec_fn(Seq<char>, Seq<char>) -> bool|
            !(#[trigger] accepts(*left, JsonValue::Number(n), rx) && #[trigger] accepts(*right, JsonValue::Number(n), rx)),
{
    let left_interval = match numeric_interval_bound(left) {
        Some(iv) => iv,
        None => return false,
    };
    let right_interval = match numeric_interval_bound(right) {
        Some(iv) => iv,
        None => return false,
    };
    if left_interval.empty || right_interval.empty {
        proof {
            assert forall|n: JsonNumber, rx: spec_fn(Seq<char>, Seq<char>) -> bool|
                !(#[trigger] accepts(*left, JsonValue::Number(n), rx) && #[trigger] accepts(*right, JsonValue::Number(n), rx)) by {
                lemma_numeric_bound_sound(*left, n, rx);
                lemma_numeric_bound_sound(*right, n, rx);
            }
        }
        return true;
    }
    let r = interval_strictly_before(left_interval, right_interval)
        || interval_strictly_before(right_interval, left_interval);
    proof {
        assert forall|n: JsonNumber, rx: spec_fn(Seq<char>, Seq<char>) -> bool|
            r implies !(#[trigger] accepts(*left, JsonValue::Number(n), rx) && #[trigger] accepts(*right, JsonValue::Number(n), rx)) by {
            lemma_numeric_bound_sound(*left, n, rx);
            lemma_numeric_bound_sound(*right, n, rx);
            lemma_number_denominator(n);
            lemma_strictly_before_sound(interval_view(left_interval), interval_view(right_interval), number_rational(n));
            lemma_strictly_before_sound(interval_view(right_interval), interval_view(left_interval), number_rational(n));
        }
    }
    r
}

/// The test `split_allof_numeric_range_is_impossible` performs.
pub open spec fn numeric_range_conflict(s: SchemaNode) -> bool {
    &&& s.kind is AllOf
    &&& may_accept_some_type(s)
    &&& !may_accept_other_type(s, JSON_TYPE_NUMBER)
    &&& numeric_bound(s) matches Some(iv) && iv.2
}

/// Whether `schema` is a number-only `allOf` whose number range is empty,
/// such as `allOf: [{minimum: 3}, {maximum: 1}]`; then it accepts nothing.
pub fn split_allof_numeric_range_is_impossible(schema: &SchemaNode) -> (r: bool)
    ensures
        r == numeric_range_conflict(*schema),
        r ==> forall|v: JsonValue, rx: spec_fn(Seq<char>, Seq<char>) -> bool| !#[trigger] accepts(*schema, v, rx),
{
    match &schema.kind {
        SchemaNodeKind::AllOf(_) => {},
        _ => return false,
    }
    let mask = possible_json_type_mask(schema);
    proof { lemma_possible_mask_tests(mask, *schema, JSON_TYPE_NUMBER); }
    if mask == 0 || mask & !JSON_TYPE_NUMBER != 0 {
        return false;
    }
    let r = match numeric_interval_bound(schema) {
        Some(interval) => interval.empty,
        None => false,
    };
    proof {
        assert forall|v: JsonValue, rx: spec_fn(Seq<char>, Seq<char>) -> bool| r implies !#[trigger] accepts(*schema, v, rx) by {
            if accepts(*schema, v, rx) {
                lemma_type_restriction(*schema, JSON_TYPE_NUMBER, v, rx);
                lemma_numeric_bound_sound(*schema, v->Number_0, rx);
            }
        }
    }
    r
}

/// The test `split_allof_numeric_range_subset_of_number` performs.
pub open spec fn numeric_range_subset(sub: SchemaNode, sup: SchemaNode) -> bool {
    !may_accept_some_type(sub) || (!may_accept_other_type(sub, JSON_TYPE_NUMBER) && match numeric_bound(sub) {
        None => false,
        Some(a) => a.2 || match numeric_bound(sup) {
            None => false,
            Some(b) => contains_view(b, a),
        },
    })
}

/// What both subset tests conclude of a value `sub` accepts: a number in
/// `sup`'s number range.
pub open spec fn in_sup_range(sup: SchemaNode, v: JsonValue) -> bool {
    &&& v is Number
    &&& numeric_bound(sup) is Some
    &&& interval_admits(numeric_bound(sup)->0, number_rational(v->Number_0))
}

/// The shared part of the two subset tests: the type test, then range
/// containment.
fn numeric_range_subset_check(sub: &SchemaNode, sup: &SchemaNode) -> (r: bool)
    ensures
        r == numeric_range_subset(*sub, *sup),
        r ==> forall|v: JsonValue, rx: spec_fn(Seq<char>, Seq<char>) -> bool| #[trigger] accepts(*sub, v, rx)
            ==> in_sup_range(*sup, v),
{
    let sub_mask = possible_json_type_mask(sub);
    proof { lemma_possible_mask_tests(sub_mask, *sub, JSON_TYPE_NUMBER); }
    if sub_mask == 0 {
        proof {
            assert forall|v: JsonValue, rx: spec_fn(Seq<char>, Seq<char>) -> bool| #[trigger] accepts(*sub, v, rx)
                implies in_sup_range(*sup, v) by {
                lemma_type_restriction(*sub, JSON_TYPE_NUMBER, v, rx);
            }
        }
        return true;
    }
    if sub_mask & !JSON_TYPE_NUMBER != 0 {
        return false;
    }
    let sub_interval = match numeric_interval_bound(sub) {
        Some(iv) => iv,
        None => return false,
    };
    let r = if sub_interval.empty {
        true
    } else {
        match numeric_interval_bound(sup) {
            Some(sup_interval) => numeric_interval_contains(sup_interval, sub_interval),
            None => false,
        }
    };
    proof {
        assert forall|v: JsonValue, rx: spec_fn(Seq<char>, Seq<char>) -> bool| r && #[trigger] accepts(*sub, v, rx)
            implies in_sup_range(*sup, v) by {
            lemma_type_restriction(*sub, JSON_TYPE_NUMBER, v, rx);
            let n = v->Number_0;
            lemma_number_denominator(n);
            lemma_numeric_bound_sound(*sub, n, rx);
            if numeric_bound(*sup) is Some {
                lemma_contains_sound(numeric_bound(*sup)->0, numeric_bound(*sub)->0, number_rational(n));
            }
        }
    }
    r
}

/// Whether every value `sub` accepts is a number in `sup`'s number range
/// (used with a plain number `sup`): true when `sub` may accept no type;
/// otherwise `sub` must be number-only with a known range that is empty or
/// inside `sup`'s known range.
pub fn split_allof_numeric_range_subset_of_number(sub: &SchemaNode, sup: &SchemaNode) -> (r: bool)
    ensures
        r == numeric_range_subset(*sub, *sup),
        r ==> forall|v: JsonValue, rx: spec_fn(Seq<char>, Seq<char>) -> bool| #[trigger] accepts(*sub, v, rx)
            ==> in_sup_range(*sup, v),
{
    numeric_range_subset_check(sub, sup)
}

/// The test `split_allof_integer_range_subset_of_integer` performs.
pub open spec fn integer_range_subset(sub: SchemaNode, sup: SchemaNode) -> bool {
    !may_accept_some_type(sub) || (!may_accept_other_type(sub, JSON_TYPE_NUMBER)
        && has_direct_integer_conjunct(sub) && numeric_range_subset(sub, sup))
}

/// Whether every value `sub` accepts is an integer in `sup`'s number range
/// (used with a plain integer `sup`): as the number test, and `sub` must be
/// an `allOf` with an integer schema among its conjuncts.
pub fn split_allof_integer_range_subset_of_integer(sub: &SchemaNode, sup: &SchemaNode) -> (r: bool)
    ensures
        r == integer_range_subset(*sub, *sup),
        r ==> forall|v: JsonValue, rx: spec_fn(Seq<char>, Seq<char>) -> bool| #[trigger] accepts(*sub, v, rx)
            ==> in_sup_range(*sup, v) && number_is_integral(v->Number_0),
{
    let sub_mask = possible_json_type_mask(sub);
    proof { lemma_possible_mask_tests(sub_mask, *sub, JSON_TYPE_NUMBER); }
    if sub_mask == 0 {
        proof {
            assert forall|v: JsonValue, rx: spec_fn(Seq<char>, Seq<char>) -> bool| #[trigger] accepts(*sub, v, rx)
                implies in_sup_range(*sup, v) && number_is_integral(v->Number_0) by {
                lemma_type_restriction(*sub, JSON_TYPE_NUMBER, v, rx);
            }
        }
        return true;
    }
    if sub_mask & !JSON_TYPE_NUMBER != 0 {
        return false;
    }
    if !allof_has_direct_integer_conjunct(sub) {
        return false;
    }
    let r = numeric_range_subset_check(sub, sup);
    proof {
        assert forall|v: JsonValue, rx: spec_fn(Seq<char>, Seq<char>) -> bool| r && #[trigger] accepts(*sub, v, rx)
            implies in_sup_range(*sup, v) && number_is_integral(v->Number_0) by {
            let children = sub.kind->AllOf_0;
            let i = choose|i: int| 0 <= i < children@.len() && (#[trigger] children@[i]).kind is Integer;
            assert(accepts(children@[i], v, rx));
        }
    }
    r
}

/// A `minimum`-style bound admits a number exactly when its end does.
pub(crate) proof fn lemma_number_bound_admits(b: NumberBound, n: JsonNumber)
    ensures
        lower_bound_ok(b, n) == lower_admits(number_bound_view(b), number_rational(n)),
        upper_bound_ok(b, n) == upper_admits(number_bound_view(b), number_rational(n)),
{
    lemma_number_denominator(n);
    match b {
        NumberBound::Inclusive(v) => lemma_float_vs_rational(v, number_rational(n)),
        NumberBound::Exclusive(v) => lemma_float_vs_rational(v, number_rational(n)),
        NumberBound::Unbounded => {},
    }
}

impl NumberBounds {
    /// Whether these bounds admit every number `other` admits, compared as
    /// doubles: each end of `self` is absent, or `other`'s end lies strictly
    /// inside it, or at it with `self` inclusive or `other` exclusive.
    pub fn contains_bounds(&self, other: NumberBounds) -> (r: bool)
        ensures
            r == (lower_contains_view(number_bound_view(self.lower), number_bound_view(other.lower))
                && upper_contains_view(number_bound_view(self.upper), number_bound_view(other.upper))),
            r ==> forall|n: JsonNumber| #[trigger] lower_bound_ok(other.lower, n) && upper_bound_ok(other.upper, n)
                ==> lower_bound_ok(self.lower, n) && upper_bound_ok(self.upper, n),
    {
        let r = lower_bound_contains(interval_bound_from(self.lower), interval_bound_from(other.lower))
            && upper_bound_contains(interval_bound_from(self.upper), interval_bound_from(other.upper));
        proof {
            assert forall|n: JsonNumber| r && #[trigger] lower_bound_ok(other.lower, n) && upper_bound_ok(other.upper, n)
                implies lower_bound_ok(self.lower, n) && upper_bound_ok(self.upper, n) by {
                lemma_number_bound_admits(self.lower, n);
                lemma_number_bound_admits(self.upper, n);
                lemma_number_bound_admits(other.lower, n);
                lemma_number_bound_admits(other.upper, n);
                lemma_number_denominator(n);
                lemma_contains_sound(
                    (number_bound_view(self.lower), number_bound_view(self.upper), false),
                    (number_bound_view(other.lower), number_bound_view(other.upper), false),
                    number_rational(n),
                );
            }
        }
        r
    }
}

} // verus!
