//! Integer lattices: the integers an integer schema (or an `allOf` of them)
//! accepts lie in a range and are multiples of a positive divisor. Two such
//! lattices are disjoint when their intersection, the multiples of the least
//! common multiple inside the overlap of the ranges, is empty.

use vstd::prelude::*;
use vstd::arithmetic::div_mod::{lemma_fundamental_div_mod, lemma_mod_multiples_basic, lemma_mod_bound};
use crate::json::{JsonValue, number_is_integral};
use crate::schema::{SchemaNode, SchemaNodeKind};
use crate::semantics::{accepts, integer_value};

verus! {

/// Bounds and a divisor of the integers a schema accepts.
#[derive(Clone, Copy, Debug, PartialEq, Eq, Structural)]
pub struct IntegerLattice {
    pub lower: Option<i64>,
    pub upper: Option<i64>,
    pub divisor: i128,
}

/// The greatest common divisor, by Euclid's algorithm.
pub open spec fn gcd_of(a: int, b: int) -> int
    decreases b,
    when b >= 0
{
    if b <= 0 {
        a
    } else {
        gcd_of(b, a % b)
    }
}

/// The least common multiple `a / gcd(a, b) * b` of two positive divisors,
/// when it fits in `i128`.
pub open spec fn lcm_of(a: i128, b: i128) -> Option<i128> {
    if a <= 0 || b <= 0 {
        None
    } else {
        let l = (a as int / gcd_of(a as int, b as int)) * b;
        if l > i128::MAX {
            None
        } else {
            Some(l as i128)
        }
    }
}

/// The intersection of two lattices: the tighter bounds and the least common
/// multiple of the divisors (`None` when that does not fit).
pub open spec fn lattice_intersection(left: IntegerLattice, right: IntegerLattice) -> Option<IntegerLattice> {
    match lcm_of(left.divisor, right.divisor) {
        None => None,
        Some(divisor) => Some(IntegerLattice {
            lower: match (left.lower, right.lower) {
                (Some(a), Some(b)) => Some(if a >= b { a } else { b }),
                (Some(a), None) => Some(a),
                (None, Some(b)) => Some(b),
                (None, None) => None,
            },
            upper: match (left.upper, right.upper) {
                (Some(a), Some(b)) => Some(if a <= b { a } else { b }),
                (Some(a), None) => Some(a),
                (None, Some(b)) => Some(b),
                (None, None) => None,
            },
            divisor,
        }),
    }
}

/// The lattice of an integer schema (its `multipleOf` divisor, or 1), or of
/// an `allOf` (the intersection of its conjuncts' lattices); `None` for any
/// other schema, for a non-positive divisor, or when an intersection
/// overflows.
pub open spec fn lattice_summary(s: SchemaNode) -> Option<IntegerLattice>
    decreases s, 0nat,
{
    match s.kind {
        SchemaNodeKind::Integer { bounds, multiple_of, .. } => {
            let divisor: i128 = match multiple_of {
                Some(m) => match m.divisor {
                    Some(d) => d,
                    None => 1,
                },
                None => 1,
            };
            if divisor > 0 {
                Some(IntegerLattice { lower: bounds.lower, upper: bounds.upper, divisor })
            } else {
                None
            }
        },
        SchemaNodeKind::AllOf(children) => match lattice_fold(children@, children@.len()) {
            None => None,
            Some(acc) => acc,
        },
        _ => None,
    }
}

/// The intersection of the lattices among the first `n` conjuncts:
/// `Some(None)` when none has one, `None` when an intersection overflows.
pub open spec fn lattice_fold(children: Seq<SchemaNode>, n: nat) -> Option<Option<IntegerLattice>>
    decreases children, n,
{
    if n == 0 || n > children.len() {
        Some(None)
    } else {
        match lattice_fold(children, (n - 1) as nat) {
            None => None,
            Some(acc) => match lattice_summary(children[n - 1]) {
                None => Some(acc),
                Some(child) => match acc {
                    None => Some(Some(child)),
                    Some(current) => match lattice_intersection(current, child) {
                        None => None,
                        Some(joined) => Some(Some(joined)),
                    },
                },
            },
        }
    }
}

/// The smallest integer `q` with `q * d >= n`, for `d > 0`.
pub open spec fn ceil_div(n: int, d: int) -> int {
    if n % d == 0 {
        n / d
    } else {
        n / d + 1
    }
}

/// The test `integer_lattices_are_disjoint` performs: both lattices known,
/// their intersection known and bounded on both sides, and no multiple of
/// its divisor inside its range.
pub open spec fn lattices_disjoint(left: SchemaNode, right: SchemaNode) -> bool {
    match (lattice_summary(left), lattice_summary(right)) {
        (Some(a), Some(b)) => match lattice_intersection(a, b) {
            Some(c) => match (c.lower, c.upper) {
                (Some(lo), Some(hi)) => lo > hi || ceil_div(lo as int, c.divisor as int) * c.divisor > hi,
                _ => false,
            },
            None => false,
        },
        _ => false,
    }
}

/// Whether an integer value lies in a lattice.
pub open spec fn lattice_holds(sm: IntegerLattice, v: JsonValue) -> bool {
    &&& v is Number
    &&& number_is_integral(v->Number_0)
    &&& sm.lower matches Some(l) ==> l <= integer_value(v->Number_0)
    &&& sm.upper matches Some(u) ==> integer_value(v->Number_0) <= u
    &&& integer_value(v->Number_0) % (sm.divisor as int) == 0
}

/// The integer combination `s * a + t * b`.
pub open spec fn combination(a: int, b: int, s: int, t: int) -> int {
    s * a + t * b
}

/// Euclid's algorithm yields a positive common divisor of its inputs that
/// is an integer combination of them.
proof fn lemma_gcd(a: int, b: int)
    requires
        a > 0,
        b >= 0,
    ensures
        gcd_of(a, b) > 0,
        a % gcd_of(a, b) == 0,
        b % gcd_of(a, b) == 0,
        exists|s: int, t: int| #[trigger] combination(a, b, s, t) == gcd_of(a, b),
    decreases b,
{
    if b == 0 {
        lemma_mod_multiples_basic(1, a);
        lemma_mod_multiples_basic(0, a);
        assert(combination(a, b, 1, 0) == gcd_of(a, b));
    } else {
        let r = a % b;
        lemma_mod_bound(a, b);
        lemma_gcd(b, r);
        let g = gcd_of(b, r);
        assert(gcd_of(a, b) == g);
        lemma_fundamental_div_mod(a, b);
        let q = a / b;
        let (s, t) = choose|s: int, t: int| #[trigger] combination(b, r, s, t) == g;
        assert(t * a + (s - t * q) * b == g) by (nonlinear_arith)
            requires
                s * b + t * r == g,
                a == b * q + r;
        assert(combination(a, b, t, s - t * q) == g);
        lemma_fundamental_div_mod(b, g);
        lemma_fundamental_div_mod(r, g);
        let x = b / g;
        let y = r / g;
        assert(a == (q * x + y) * g) by (nonlinear_arith)
            requires
                a == b * q + r,
                b == g * x + 0,
                r == g * y + 0;
        lemma_mod_multiples_basic(q * x + y, g);
    }
}

/// Law: a number divisible by two positive divisors is divisible by their
/// least common multiple `a / gcd(a, b) * b`, which is positive.
pub proof fn lemma_lcm_divides(a: int, b: int, n: int)
    requires
        a > 0,
        b > 0,
        n % a == 0,
        n % b == 0,
    ensures
        (a / gcd_of(a, b)) * b > 0,
        n % ((a / gcd_of(a, b)) * b) == 0,
{
    lemma_gcd(a, b);
    let g = gcd_of(a, b);
    let (s, t) = choose|s: int, t: int| #[trigger] combination(a, b, s, t) == g;
    lemma_fundamental_div_mod(a, g);
    lemma_fundamental_div_mod(n, a);
    lemma_fundamental_div_mod(n, b);
    let p = a / g;
    let j = n / a;
    let k = n / b;
    let l = p * b;
    assert(l > 0) by (nonlinear_arith)
        requires
            a == g * p + 0,
            a > 0,
            g > 0,
            b > 0,
            l == p * b;
    let m = s * k + t * j;
    let ab = a * b;
    assert(n * g == s * (a * n) + t * (b * n)) by (nonlinear_arith)
        requires
            s * a + t * b == g;
    assert(a * n == ab * k) by (nonlinear_arith)
        requires
            n == b * k + 0,
            ab == a * b;
    assert(b * n == ab * j) by (nonlinear_arith)
        requires
            n == a * j + 0,
            ab == a * b;
    assert(s * (ab * k) + t * (ab * j) == ab * m) by (nonlinear_arith)
        requires
            m == s * k + t * j;
    assert(ab == l * g) by (nonlinear_arith)
        requires
            a == g * p + 0,
            l == p * b,
            ab == a * b;
    assert(n * g == (l * m) * g) by (nonlinear_arith)
        requires
            n * g == ab * m,
            ab == l * g;
    assert(n == l * m) by (nonlinear_arith)
        requires
            n * g == (l * m) * g,
            g > 0;
    lemma_mod_multiples_basic(m, l);
    assert(m * l == l * m) by (nonlinear_arith);
}

/// The intersection of two lattices holds every value both hold.
proof fn lemma_lattice_intersection_sound(left: IntegerLattice, right: IntegerLattice, v: JsonValue)
    requires
        left.divisor > 0,
        right.divisor > 0,
        lattice_intersection(left, right) is Some,
    ensures
        lattice_intersection(left, right)->0.divisor > 0,
        lattice_holds(left, v) && lattice_holds(right, v) ==> lattice_holds(lattice_intersection(left, right)->0, v),
{
    if lattice_holds(left, v) && lattice_holds(right, v) {
        lemma_lcm_divides(left.divisor as int, right.divisor as int, integer_value(v->Number_0));
    } else {
        lemma_lcm_divides(left.divisor as int, right.divisor as int, 0);
    }
}

/// Law: every value a schema accepts lies in the schema's lattice, whose
/// divisor is positive.
pub proof fn lemma_lattice_summary_sound(s: SchemaNode, v: JsonValue, rx: spec_fn(Seq<char>, Seq<char>) -> bool)
    requires
        lattice_summary(s) is Some,
    ensures
        lattice_summary(s)->0.divisor > 0,
        accepts(s, v, rx) ==> lattice_holds(lattice_summary(s)->0, v),
    decreases s, 0nat,
{
    match s.kind {
        SchemaNodeKind::Integer { .. } => {
            if accepts(s, v, rx) {
                lemma_mod_multiples_basic(integer_value(v->Number_0), 1);
                assert(integer_value(v->Number_0) * 1 == integer_value(v->Number_0));
            }
        },
        SchemaNodeKind::AllOf(children) => {
            lemma_lattice_fold_sound(children@, children@.len(), v, rx);
        },
        _ => {},
    }
}

/// The `allOf` fold is sound: a value all of the first `n` conjuncts accept
/// lies in their intersected lattice.
proof fn lemma_lattice_fold_sound(children: Seq<SchemaNode>, n: nat, v: JsonValue, rx: spec_fn(Seq<char>, Seq<char>) -> bool)
    requires
        n <= children.len(),
        lattice_fold(children, n) is Some,
    ensures
        lattice_fold(children, n)->0 matches Some(sm) ==> sm.divisor > 0
            && ((forall|i: int| 0 <= i < n ==> accepts(#[trigger] children[i], v, rx)) ==> lattice_holds(sm, v)),
    decreases children, n,
{
    if n > 0 {
        lemma_lattice_fold_sound(children, (n - 1) as nat, v, rx);
        let acc = lattice_fold(children, (n - 1) as nat)->0;
        if lattice_summary(children[n - 1]) is Some {
            lemma_lattice_summary_sound(children[n - 1], v, rx);
            if acc is Some {
                lemma_lattice_intersection_sound(acc->0, lattice_summary(children[n - 1])->0, v);
            }
        }
        if forall|i: int| 0 <= i < n ==> accepts(#[trigger] children[i], v, rx) {
            assert(accepts(children[n - 1], v, rx));
            assert(forall|i: int| 0 <= i < n - 1 ==> accepts(#[trigger] children[i], v, rx));
        }
    }
}

/// Every multiple of `d` at or above `lo` is at least the first one.
proof fn lemma_first_multiple(x: int, lo: int, d: int)
    requires
        d > 0,
        x % d == 0,
        lo <= x,
    ensures
        ceil_div(lo, d) * d <= x,
{
    lemma_fundamental_div_mod(x, d);
    lemma_fundamental_div_mod(lo, d);
    lemma_mod_bound(lo, d);
    let k = x / d;
    let q = lo / d;
    let r = lo % d;
    assert(q < k || (q == k && r == 0)) by (nonlinear_arith)
        requires
            x == d * k + 0,
            lo == d * q + r,
            0 <= r < d,
            lo <= x;
    let c = ceil_div(lo, d);
    assert(c <= k);
    assert(c * d <= k * d) by (nonlinear_arith)
        requires
            c <= k,
            d > 0;
    assert(x == k * d) by (nonlinear_arith)
        requires
            x == d * k + 0;
}

/// Once the `allOf` fold has overflowed, it stays overflowed.
proof fn lemma_lattice_fold_none_persists(children: Seq<SchemaNode>, n: nat, m: nat)
    requires
        n <= m <= children.len(),
        lattice_fold(children, n) is None,
    ensures
        lattice_fold(children, m) is None,
    decreases m - n,
{
    if n < m {
        lemma_lattice_fold_none_persists(children, n, (m - 1) as nat);
    }
}

/// The greatest common divisor of a positive and a non-negative integer.
fn gcd(a: i128, b: i128) -> (g: i128)
    requires
        a > 0,
        b >= 0,
    ensures
        g as int == gcd_of(a as int, b as int),
{
    let mut x = a;
    let mut y = b;
    while y != 0
        invariant
            x > 0,
            y >= 0,
            gcd_of(x as int, y as int) == gcd_of(a as int, b as int),
        decreases y,
    {
        proof { lemma_mod_bound(x as int, y as int); }
        let r = x % y;
        x = y;
        y = r;
    }
    x
}

/// The least common multiple of two positive divisors, when it fits.
fn lcm(a: i128, b: i128) -> (r: Option<i128>)
    ensures
        r == lcm_of(a, b),
{
    if a <= 0 || b <= 0 {
        return None;
    }
    let g = gcd(a, b);
    proof {
        lemma_gcd(a as int, b as int);
        lemma_lcm_divides(a as int, b as int, 0);
    }
    match a.checked_div(g) {
        None => None,
        Some(q) => q.checked_mul(b),
    }
}

/// The intersection of two lattices (see `lattice_intersection`).
fn intersect_lattices(left: IntegerLattice, right: IntegerLattice) -> (r: Option<IntegerLattice>)
    ensures
        r == lattice_intersection(left, right),
{
    let divisor = match lcm(left.divisor, right.divisor) {
        Some(d) => d,
        None => return None,
    };
    let lower = match (left.lower, right.lower) {
        (Some(a), Some(b)) => Some(if a >= b { a } else { b }),
        (Some(a), None) => Some(a),
        (None, Some(b)) => Some(b),
        (None, None) => None,
    };
    let upper = match (left.upper, right.upper) {
        (Some(a), Some(b)) => Some(if a <= b { a } else { b }),
        (Some(a), None) => Some(a),
        (None, Some(b)) => Some(b),
        (None, None) => None,
    };
    Some(IntegerLattice { lower, upper, divisor })
}

/// The lattice of `schema` (see `lattice_summary`).
fn summarize_lattice(schema: &SchemaNode) -> (r: Option<IntegerLattice>)
    ensures
        r == lattice_summary(*schema),
    decreases *schema,
{
    match &schema.kind {
        SchemaNodeKind::Integer { bounds, multiple_of, .. } => {
            let divisor: i128 = match multiple_of {
                Some(multiple) => match multiple.integer_divisor() {
                    Some(d) => d,
                    None => 1,
                },
                None => 1,
            };
            if divisor > 0 {
                Some(IntegerLattice { lower: bounds.lower, upper: bounds.upper, divisor })
            } else {
                None
            }
        },
        SchemaNodeKind::AllOf(children) => {
            let mut summary: Option<IntegerLattice> = None;
            let mut i: usize = 0;
            while i < children.len()
                invariant
                    i <= children@.len(),
                    schema.kind == SchemaNodeKind::AllOf(*children),
                    lattice_fold(children@, i as nat) == Some(summary),
                decreases children@.len() - i,
            {
                proof {
                    assert(decreases_to!(*schema => schema.kind));
                    assert(decreases_to!(schema.kind => schema.kind->AllOf_0));
                    assert(decreases_to!(*children => children[i as int]));
                }
                match summarize_lattice(&children[i]) {
                    Some(child_summary) => {
                        let next = match summary {
                            Some(current) => match intersect_lattices(current, child_summary) {
                                Some(joined) => joined,
                                None => {
                                    proof { lemma_lattice_fold_none_persists(children@, (i + 1) as nat, children@.len()); }
                                    return None;
                                },
                            },
                            None => child_summary,
                        };
                        summary = Some(next);
                    },
                    None => {},
                }
                i = i + 1;
            }
            summary
        },
        _ => None,
    }
}

/// The smallest `q` with `q * d >= n` (see `ceil_div`).
fn ceil_div_exec(n: i128, d: i128) -> (q: i128)
    requires
        d > 0,
        i64::MIN <= n <= i64::MAX,
    ensures
        q as int == ceil_div(n as int, d as int),
{
    proof {
        lemma_fundamental_div_mod(n as int, d as int);
        lemma_mod_bound(n as int, d as int);
        let q = n as int / d as int;
        let r = n as int % d as int;
        assert(i64::MIN <= q <= i64::MAX) by (nonlinear_arith)
            requires
                n == d * q + r,
                0 <= r < d,
                i64::MIN <= n <= i64::MAX,
                d >= 1;
    }
    let q = n.checked_div_euclid(d).unwrap();
    let r = n.checked_rem_euclid(d).unwrap();
    if r == 0 {
        q
    } else {
        q + 1
    }
}

/// Whether two integer schemas (or `allOf`s of them) accept no common value:
/// their lattices intersect to a range holding no multiple of the least
/// common multiple of their divisors. `false` when this cannot be shown.
pub fn integer_lattices_are_disjoint(left: &SchemaNode, right: &SchemaNode) -> (r: bool)
    ensures
        r == lattices_disjoint(*left, *right),
        r ==> forall|v: JsonValue, rx: spec_fn(Seq<char>, Seq<char>) -> bool|
            !(#[trigger] accepts(*left, v, rx) && #[trigger] accepts(*right, v, rx)),
{
    let left_summary = match summarize_lattice(left) {
        Some(summary) => summary,
        None => return false,
    };
    let right_summary = match summarize_lattice(right) {
        Some(summary) => summary,
        None => return false,
    };
    let combined = match intersect_lattices(left_summary, right_summary) {
        Some(summary) => summary,
        None => return false,
    };
    let (lower, upper): (i128, i128) = match (combined.lower, combined.upper) {
        (Some(lo), Some(hi)) => (lo as i128, hi as i128),
        _ => return false,
    };
    proof {
        let rx0 = |a: Seq<char>, b: Seq<char>| true;
        lemma_lattice_summary_sound(*left, JsonValue::Null, rx0);
        lemma_lattice_summary_sound(*right, JsonValue::Null, rx0);
        lemma_lattice_intersection_sound(left_summary, right_summary, JsonValue::Null);
    }
    let r = if lower > upper {
        true
    } else {
        let first = ceil_div_exec(lower, combined.divisor);
        let first_multiple = match first.checked_mul(combined.divisor) {
            Some(m) => m,
            None => if first > 0 {
                i128::MAX
            } else {
                i128::MIN
            },
        };
        proof {
            if first > 0 {
                assert(first * combined.divisor >= 0) by (nonlinear_arith)
                    requires first > 0, combined.divisor > 0;
            } else {
                assert(first * combined.divisor <= 0) by (nonlinear_arith)
                    requires first <= 0, combined.divisor > 0;
            }
        }
        first_multiple > upper
    };
    proof {
        assert forall|v: JsonValue, rx: spec_fn(Seq<char>, Seq<char>) -> bool|
            r implies !(#[trigger] accepts(*left, v, rx) && #[trigger] accepts(*right, v, rx)) by {
            lemma_lattice_summary_sound(*left, v, rx);
            lemma_lattice_summary_sound(*right, v, rx);
            lemma_lattice_intersection_sound(left_summary, right_summary, v);
            if accepts(*left, v, rx) && accepts(*right, v, rx) {
                let x = integer_value(v->Number_0);
                assert(lattice_holds(combined, v));
                if lower <= upper {
                    lemma_first_multiple(x, lower as int, combined.divisor as int);
                }
            }
        }
    }
    r
}

} // verus!
