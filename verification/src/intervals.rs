//! Length and count intervals: over-approximations of the lengths (string
//! lengths, item counts, property counts) a schema can produce.

use vstd::prelude::*;
use crate::schema::{CountRange, count_in_range};

verus! {

/// A range of lengths `lower..=upper` (`upper` of `None` is unbounded), or
/// the empty set when `empty` is set.
#[derive(Clone, Copy, Debug, PartialEq, Eq, Structural)]
pub struct LengthInterval {
    pub lower: u64,
    pub upper: Option<u64>,
    pub empty: bool,
}

/// The lengths an interval stands for.
pub open spec fn length_in(iv: LengthInterval, n: int) -> bool {
    !iv.empty && iv.lower <= n && (iv.upper matches Some(u) ==> n <= u)
}

/// An interval is well formed when a non-empty interval has `lower <= upper`,
/// so that `empty` is set exactly when it stands for no length.
pub open spec fn length_interval_wf(iv: LengthInterval) -> bool {
    !iv.empty ==> (iv.upper matches Some(u) ==> iv.lower <= u)
}

/// The interval `intersect` computes: both bounds tightened, `empty` set
/// when either input is empty or the bounds cross.
pub open spec fn interval_intersection(a: LengthInterval, b: LengthInterval) -> LengthInterval {
    if a.empty || b.empty {
        LengthInterval { lower: a.lower, upper: a.upper, empty: true }
    } else {
        let lower = if a.lower >= b.lower { a.lower } else { b.lower };
        let upper = match (a.upper, b.upper) {
            (None, bound) => bound,
            (bound, None) => bound,
            (Some(x), Some(y)) => Some(if x <= y { x } else { y }),
        };
        LengthInterval { lower, upper, empty: upper matches Some(u) && lower > u }
    }
}

/// The interval `hull` computes: an empty input yields the other input,
/// otherwise the bounds are loosened to cover both.
pub open spec fn interval_hull(a: LengthInterval, b: LengthInterval) -> LengthInterval {
    if a.empty {
        b
    } else if b.empty {
        a
    } else {
        LengthInterval {
            lower: if a.lower <= b.lower { a.lower } else { b.lower },
            upper: match (a.upper, b.upper) {
                (Some(x), Some(y)) => Some(if x >= y { x } else { y }),
                _ => None,
            },
            empty: false,
        }
    }
}

/// The interval holding no length.
pub open spec fn empty_interval() -> LengthInterval {
    LengthInterval { lower: 1, upper: Some(0), empty: true }
}

/// The interval holding every length.
pub open spec fn unbounded_interval() -> LengthInterval {
    LengthInterval { lower: 0, upper: None, empty: false }
}

/// The test `length_interval_strictly_before` performs.
pub open spec fn strictly_before(left: LengthInterval, right: LengthInterval) -> bool {
    left.empty || right.empty || (left.upper matches Some(u) && u < right.lower)
}

impl LengthInterval {
    /// All lengths.
    pub fn unbounded() -> (r: Self)
        ensures
            r == unbounded_interval(),
            length_interval_wf(r),
            forall|n: int| n >= 0 ==> length_in(r, n),
    {
        LengthInterval { lower: 0, upper: None, empty: false }
    }

    /// No length.
    pub fn empty() -> (r: Self)
        ensures
            r == empty_interval(),
            length_interval_wf(r),
            forall|n: int| !length_in(r, n),
            r.empty,
    {
        LengthInterval { lower: 1, upper: Some(0), empty: true }
    }

    /// Exactly the lengths in both intervals.
    pub fn intersect(self, other: Self) -> (r: Self)
        ensures
            r == interval_intersection(self, other),
            forall|n: int| length_in(r, n) <==> (length_in(self, n) && length_in(other, n)),
            length_interval_wf(r),
    {
        let mut result = self;
        if self.empty || other.empty {
            result.empty = true;
            return result;
        }
        result.lower = if self.lower >= other.lower { self.lower } else { other.lower };
        result.upper = match (self.upper, other.upper) {
            (None, bound) => bound,
            (bound, None) => bound,
            (Some(left), Some(right)) => Some(if left <= right { left } else { right }),
        };
        match result.upper {
            Some(upper) => if result.lower > upper {
                result.empty = true;
            },
            None => {},
        }
        result
    }

    /// An interval containing every length of either input (the smallest
    /// such interval when both inputs are well formed).
    pub fn hull(self, other: Self) -> (r: Self)
        ensures
            r == interval_hull(self, other),
            forall|n: int| length_in(self, n) || length_in(other, n) ==> length_in(r, n),
            length_interval_wf(self) && length_interval_wf(other) ==> length_interval_wf(r),
    {
        if self.empty {
            return other;
        }
        if other.empty {
            return self;
        }
        LengthInterval {
            lower: if self.lower <= other.lower { self.lower } else { other.lower },
            upper: match (self.upper, other.upper) {
                (Some(left), Some(right)) => Some(if left >= right { left } else { right }),
                _ => None,
            },
            empty: false,
        }
    }
}

/// Whether every length of `left` is below every length of `right`
/// (vacuously when either is empty).
pub fn length_interval_strictly_before(left: LengthInterval, right: LengthInterval) -> (r: bool)
    ensures
        r == strictly_before(left, right),
        r ==> forall|a: int, b: int| length_in(left, a) && length_in(right, b) ==> a < b,
{
    if left.empty || right.empty {
        return true;
    }
    match left.upper {
        Some(upper) => upper < right.lower,
        None => false,
    }
}

/// The test `length_interval_contains` performs.
pub open spec fn interval_contains(outer: LengthInterval, inner: LengthInterval) -> bool {
    inner.empty || (!outer.empty && outer.lower <= inner.lower && match (outer.upper, inner.upper) {
        (None, _) => true,
        (Some(_), None) => false,
        (Some(o), Some(i)) => i <= o,
    })
}

/// Whether `outer` contains every length of `inner` (exactly so when
/// `inner` is well formed).
pub fn length_interval_contains(outer: LengthInterval, inner: LengthInterval) -> (r: bool)
    ensures
        r == interval_contains(outer, inner),
        length_interval_wf(inner) ==> (r == (forall|n: int| length_in(inner, n) ==> length_in(outer, n))),
{
    if inner.empty {
        return true;
    }
    if outer.empty {
        assert(length_interval_wf(inner) ==> length_in(inner, inner.lower as int));
        return false;
    }
    if outer.lower > inner.lower {
        assert(length_interval_wf(inner) ==> length_in(inner, inner.lower as int));
        return false;
    }
    match (outer.upper, inner.upper) {
        (None, _) => true,
        (Some(outer_upper), None) => {
            let n: u64 = if outer_upper >= inner.lower { outer_upper } else { inner.lower };
            assert(length_interval_wf(inner) ==> length_in(inner, n + 1));
            false
        },
        (Some(outer_upper), Some(inner_upper)) => {
            if inner_upper <= outer_upper {
                true
            } else {
                assert(length_interval_wf(inner) ==> length_in(inner, inner_upper as int));
                false
            }
        },
    }
}

/// The counts a `CountRange<u64>` stands for.
pub open spec fn in_u64_range(range: CountRange<u64>, n: int) -> bool {
    count_in_range(n, range.min as int, match range.max { Some(m) => Some(m as int), None => None })
}

/// The counts a `CountRange<usize>` stands for.
pub open spec fn in_usize_range(range: CountRange<usize>, n: int) -> bool {
    count_in_range(n, range.min as int, match range.max { Some(m) => Some(m as int), None => None })
}

/// For a half-line count range (`min..` or `0..=max`), the half-line of all
/// other counts; `None` when that complement is empty (`0..`), when the range
/// is bounded on both sides, or when the complement starts past `u64::MAX`.
pub fn complement_u64_count_halfline(range: CountRange<u64>) -> (r: Option<CountRange<u64>>)
    ensures
        r is None <==> ((range.min == 0 && range.max is None)
            || (range.min != 0 && range.max is Some)
            || (range.min == 0 && range.max == Some(u64::MAX))),
        r matches Some(c) ==> forall|n: int| n >= 0 ==> (in_u64_range(c, n) <==> !in_u64_range(range, n)),
        r matches Some(c) ==> (range.max is None ==> c.min == 0 && c.max == Some((range.min - 1) as u64))
            && (range.max matches Some(m) ==> c.min == m + 1 && c.max is None),
{
    match (range.min, range.max) {
        (0, None) => None,
        (min, None) => CountRange::<u64>::new(0, Some(min - 1)),
        (0, Some(max)) => if max < u64::MAX {
            Some(CountRange::<u64>::unbounded_from(max + 1))
        } else {
            None
        },
        (_, Some(_)) => None,
    }
}

/// `complement_u64_count_halfline` for `usize` counts.
pub fn complement_usize_count_halfline(range: CountRange<usize>) -> (r: Option<CountRange<usize>>)
    ensures
        r is None <==> ((range.min == 0 && range.max is None)
            || (range.min != 0 && range.max is Some)
            || (range.min == 0 && range.max == Some(usize::MAX))),
        r matches Some(c) ==> forall|n: int| n >= 0 ==> (in_usize_range(c, n) <==> !in_usize_range(range, n)),
        r matches Some(c) ==> (range.max is None ==> c.min == 0 && c.max == Some((range.min - 1) as usize))
            && (range.max matches Some(m) ==> c.min == m + 1 && c.max is None),
{
    match (range.min, range.max) {
        (0, None) => None,
        (min, None) => CountRange::<usize>::new(0, Some(min - 1)),
        (0, Some(max)) => if max < usize::MAX {
            Some(CountRange::<usize>::unbounded_from(max + 1))
        } else {
            None
        },
        (_, Some(_)) => None,
    }
}

/// Whether some `(min, max)` interval of the list contains `n`.
pub open spec fn covered_u64(intervals: Seq<(u64, Option<u64>)>, n: int) -> bool {
    exists|i: int| 0 <= i < intervals.len() && count_in_range(n, (#[trigger] intervals[i]).0 as int,
        match intervals[i].1 { Some(m) => Some(m as int), None => None })
}

/// Whether some `(min, max)` interval of the list contains `n`.
pub open spec fn covered_usize(intervals: Seq<(usize, Option<usize>)>, n: int) -> bool {
    exists|i: int| 0 <= i < intervals.len() && count_in_range(n, (#[trigger] intervals[i]).0 as int,
        match intervals[i].1 { Some(m) => Some(m as int), None => None })
}

/// Whether the intervals together cover every non-negative count.
pub fn u64_intervals_cover_nonnegative(intervals: &[(u64, Option<u64>)]) -> (r: bool)
    ensures
        r == (forall|n: int| n >= 0 ==> covered_u64(intervals@, n)),
{
    let mut reach: Option<u64> = None;
    let mut i: usize = 0;
    while i < intervals.len()
        invariant
            i <= intervals@.len(),
            forall|k: int| 0 <= k < i ==> (#[trigger] intervals@[k]).0 == 0 ==> intervals@[k].1 is Some,
            reach matches Some(r) ==> forall|n: int| 0 <= n <= r ==> covered_u64(intervals@, n),
            reach is None ==> forall|k: int| 0 <= k < i ==> (#[trigger] intervals@[k]).0 != 0,
            forall|k: int| 0 <= k < i && (#[trigger] intervals@[k]).0 == 0 ==> (reach matches Some(r) && intervals@[k].1.unwrap() <= r),
        decreases intervals@.len() - i,
    {
        let (min, max) = intervals[i];
        if min == 0 {
            match max {
                None => {
                    assert forall|n: int| n >= 0 implies covered_u64(intervals@, n) by {
                        assert(count_in_range(n, intervals@[i as int].0 as int, None));
                    }
                    return true;
                },
                Some(upper) => {
                    assert forall|n: int| 0 <= n <= upper implies covered_u64(intervals@, n) by {
                        assert(count_in_range(n, intervals@[i as int].0 as int, Some(upper as int)));
                    }
                    reach = Some(match reach {
                        Some(old) => if old >= upper { old } else { upper },
                        None => upper,
                    });
                },
            }
        }
        i = i + 1;
    }
    let mut reach = match reach {
        Some(r) => r,
        None => {
            assert(!covered_u64(intervals@, 0));
            return false;
        },
    };
    loop
        invariant
            forall|n: int| 0 <= n <= reach ==> covered_u64(intervals@, n),
        decreases u64::MAX - reach,
    {
        let mut advanced = false;
        let ghost start = reach;
        let mut j: usize = 0;
        while j < intervals.len()
            invariant
                j <= intervals@.len(),
                start <= reach,
                forall|n: int| 0 <= n <= reach ==> covered_u64(intervals@, n),
                advanced ==> start < reach,
                !advanced ==> reach == start,
                !advanced ==> forall|k: int| 0 <= k < j ==> (#[trigger] intervals@[k]).0 > reach + 1
                    || (intervals@[k].1 matches Some(m) && m <= reach),
            decreases intervals@.len() - j,
        {
            let (min, max) = intervals[j];
            if (min as u128) <= (reach as u128) + 1 {
                match max {
                    None => {
                        assert forall|n: int| n >= 0 implies covered_u64(intervals@, n) by {
                            if n > reach {
                                assert(count_in_range(n, intervals@[j as int].0 as int, None));
                            }
                        }
                        return true;
                    },
                    Some(upper) => {
                        if upper > reach {
                            assert forall|n: int| 0 <= n <= upper implies covered_u64(intervals@, n) by {
                                if n > reach {
                                    assert(count_in_range(n, intervals@[j as int].0 as int, Some(upper as int)));
                                }
                            }
                            reach = upper;
                            advanced = true;
                        }
                    },
                }
            }
            j = j + 1;
        }
        if !advanced {
            assert(!covered_u64(intervals@, reach + 1));
            return false;
        }
    }
}

/// Whether the intervals together cover every non-negative count.
pub fn usize_intervals_cover_nonnegative(intervals: &[(usize, Option<usize>)]) -> (r: bool)
    ensures
        r == (forall|n: int| n >= 0 ==> covered_usize(intervals@, n)),
{
    let mut reach: Option<usize> = None;
    let mut i: usize = 0;
    while i < intervals.len()
        invariant
            i <= intervals@.len(),
            forall|k: int| 0 <= k < i ==> (#[trigger] intervals@[k]).0 == 0 ==> intervals@[k].1 is Some,
            reach matches Some(r) ==> forall|n: int| 0 <= n <= r ==> covered_usize(intervals@, n),
            reach is None ==> forall|k: int| 0 <= k < i ==> (#[trigger] intervals@[k]).0 != 0,
            forall|k: int| 0 <= k < i && (#[trigger] intervals@[k]).0 == 0 ==> (reach matches Some(r) && intervals@[k].1.unwrap() <= r),
        decreases intervals@.len() - i,
    {
        let (min, max) = intervals[i];
        if min == 0 {
            match max {
                None => {
                    assert forall|n: int| n >= 0 implies covered_usize(intervals@, n) by {
                        assert(count_in_range(n, intervals@[i as int].0 as int, None));
                    }
                    return true;
                },
                Some(upper) => {
                    assert forall|n: int| 0 <= n <= upper implies covered_usize(intervals@, n) by {
                        assert(count_in_range(n, intervals@[i as int].0 as int, Some(upper as int)));
                    }
                    reach = Some(match reach {
                        Some(old) => if old >= upper { old } else { upper },
                        None => upper,
                    });
                },
            }
        }
        i = i + 1;
    }
    let mut reach = match reach {
        Some(r) => r,
        None => {
            assert(!covered_usize(intervals@, 0));
            return false;
        },
    };
    loop
        invariant
            forall|n: int| 0 <= n <= reach ==> covered_usize(intervals@, n),
        decreases usize::MAX - reach,
    {
        let mut advanced = false;
        let ghost start = reach;
        let mut j: usize = 0;
        while j < intervals.len()
            invariant
                j <= intervals@.len(),
                start <= reach,
                forall|n: int| 0 <= n <= reach ==> covered_usize(intervals@, n),
                advanced ==> start < reach,
                !advanced ==> reach == start,
                !advanced ==> forall|k: int| 0 <= k < j ==> (#[trigger] intervals@[k]).0 > reach + 1
                    || (intervals@[k].1 matches Some(m) && m <= reach),
            decreases intervals@.len() - j,
        {
            let (min, max) = intervals[j];
            if (min as u128) <= (reach as u128) + 1 {
                match max {
                    None => {
                        assert forall|n: int| n >= 0 implies covered_usize(intervals@, n) by {
                            if n > reach {
                                assert(count_in_range(n, intervals@[j as int].0 as int, None));
                            }
                        }
                        return true;
                    },
                    Some(upper) => {
                        if upper > reach {
                            assert forall|n: int| 0 <= n <= upper implies covered_usize(intervals@, n) by {
                                if n > reach {
                                    assert(count_in_range(n, intervals@[j as int].0 as int, Some(upper as int)));
                                }
                            }
                            reach = upper;
                            advanced = true;
                        }
                    },
                }
            }
            j = j + 1;
        }
        if !advanced {
            assert(!covered_usize(intervals@, reach + 1));
            return false;
        }
    }
}

} // verus!
