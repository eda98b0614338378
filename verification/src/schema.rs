//! Schema trees: a typed form of a JSON Schema document, held as plain data.
//!
//! Keyword groups that apply to one JSON type are gathered into a single
//! node kind (for example every string keyword into `String`); applicators
//! (`allOf`, `anyOf`, `oneOf`, `not`, `if`/`then`/`else`) nest whole schemas.

use vstd::prelude::*;
use crate::json::JsonValue;

verus! {

/// An inclusive count range `min..=max`; `max` of `None` means unbounded.
#[derive(Clone, Copy, Debug, PartialEq, Eq, Structural)]
pub struct CountRange<T> {
    pub min: T,
    pub max: Option<T>,
}

impl CountRange<u64> {
    /// The range `min..=max`, or `None` when it would be empty.
    pub fn new(min: u64, max: Option<u64>) -> (r: Option<Self>)
        ensures
            r matches Some(range) ==> range.min == min && range.max == max,
            r is None <==> (max matches Some(m) && m < min),
    {
        match max {
            Some(m) if m < min => None,
            _ => Some(CountRange { min, max }),
        }
    }

    /// The range `min..`.
    pub fn unbounded_from(min: u64) -> (r: Self)
        ensures
            r.min == min,
            r.max is None,
    {
        CountRange { min, max: None }
    }
}

impl CountRange<usize> {
    /// The range `min..=max`, or `None` when it would be empty.
    pub fn new(min: usize, max: Option<usize>) -> (r: Option<Self>)
        ensures
            r matches Some(range) ==> range.min == min && range.max == max,
            r is None <==> (max matches Some(m) && m < min),
    {
        match max {
            Some(m) if m < min => None,
            _ => Some(CountRange { min, max }),
        }
    }

    /// The range `min..`.
    pub fn unbounded_from(min: usize) -> (r: Self)
        ensures
            r.min == min,
            r.max is None,
    {
        CountRange { min, max: None }
    }
}

/// Whether a count lies in a range.
pub open spec fn count_in_range(n: int, min: int, max: Option<int>) -> bool {
    min <= n && (max matches Some(m) ==> n <= m)
}

/// One end of a number range; the value is the bit pattern of an `f64`.
#[derive(Clone, Copy, Debug, PartialEq, Eq, Structural)]
pub enum NumberBound {
    Unbounded,
    Inclusive(u64),
    Exclusive(u64),
}

/// `minimum`/`exclusiveMinimum` and `maximum`/`exclusiveMaximum` of a number schema.
#[derive(Clone, Copy, Debug, PartialEq, Eq, Structural)]
pub struct NumberBounds {
    pub lower: NumberBound,
    pub upper: NumberBound,
}

/// `multipleOf` of a number schema: the keyword's value (bits of an `f64`)
/// and, when that value is a positive integer, the integer itself.
#[derive(Clone, Copy, Debug, PartialEq, Eq, Structural)]
pub struct NumberMultipleOf {
    pub value: u64,
    pub divisor: Option<i128>,
}

impl NumberMultipleOf {
    /// The integer divisor, when `multipleOf` is a positive integer.
    pub fn integer_divisor(&self) -> (r: Option<i128>)
        ensures
            r == self.divisor,
    {
        self.divisor
    }

    /// Whether every multiple of this divisor is a multiple of `other`'s;
    /// `None` when either divisor is not a positive integer.
    pub fn integer_divisor_is_multiple_of(&self, other: &NumberMultipleOf) -> (r: Option<bool>)
        ensures
            match (self.divisor, other.divisor) {
                (Some(d), Some(e)) => if d > 0 && e > 0 {
                    r == Some(d % e == 0)
                } else {
                    r is None
                },
                _ => r is None,
            },
    {
        match (self.divisor, other.divisor) {
            (Some(d), Some(e)) => if d > 0 && e > 0 {
                Some(d % e == 0)
            } else {
                None
            },
            _ => None,
        }
    }
}

/// Inclusive integer bounds of an integer schema.
#[derive(Clone, Copy, Debug, PartialEq, Eq, Structural)]
pub struct IntegerBounds {
    pub lower: Option<i64>,
    pub upper: Option<i64>,
}

/// `multipleOf` of an integer schema: the keyword's value (bits of an `f64`)
/// and, when that value is a positive integer, the integer itself.
#[derive(Clone, Copy, Debug, PartialEq, Eq, Structural)]
pub struct IntegerMultipleOf {
    pub value: u64,
    pub divisor: Option<i128>,
}

impl IntegerMultipleOf {
    /// The integer divisor, when `multipleOf` is a positive integer.
    pub fn integer_divisor(&self) -> (r: Option<i128>)
        ensures
            r == self.divisor,
    {
        self.divisor
    }

    /// Whether every multiple of this divisor is a multiple of `other`'s;
    /// `None` when either divisor is not a positive integer.
    pub fn integer_divisor_is_multiple_of(&self, other: &IntegerMultipleOf) -> (r: Option<bool>)
        ensures
            match (self.divisor, other.divisor) {
                (Some(d), Some(e)) => if d > 0 && e > 0 {
                    r == Some(d % e == 0)
                } else {
                    r is None
                },
                _ => r is None,
            },
    {
        match (self.divisor, other.divisor) {
            (Some(d), Some(e)) => if d > 0 && e > 0 {
                Some(d % e == 0)
            } else {
                None
            },
            _ => None,
        }
    }
}

/// Whether a regular expression was accepted by the pattern engine.
#[derive(Clone, Copy, Debug, PartialEq, Eq, Structural)]
pub enum PatternSupport {
    Supported,
    Unsupported,
}

/// A `pattern` (or `patternProperties` key) with its engine support.
#[derive(Clone, Debug)]
pub struct PatternConstraint {
    pub source: String,
    pub support: PatternSupport,
}

/// One `patternProperties` entry.
#[derive(Debug)]
pub struct PatternProperty {
    pub pattern: PatternConstraint,
    pub schema: SchemaNode,
}

/// `contains` with its `minContains`/`maxContains` range.
#[derive(Debug)]
pub struct ContainsConstraint {
    pub schema: Box<SchemaNode>,
    pub count: CountRange<u64>,
}

/// The typed form of one schema.
#[derive(Debug)]
#[allow(inconsistent_fields)]
pub enum SchemaNodeKind {
    /// Accepts everything (an empty schema).
    Any,
    /// `true` or `false`.
    BoolSchema(bool),
    Const(JsonValue),
    Enum(Vec<JsonValue>),
    Not(Box<SchemaNode>),
    AllOf(Vec<SchemaNode>),
    AnyOf(Vec<SchemaNode>),
    OneOf(Vec<SchemaNode>),
    IfThenElse {
        if_schema: Box<SchemaNode>,
        then_schema: Option<Box<SchemaNode>>,
        else_schema: Option<Box<SchemaNode>>,
    },
    String {
        length: CountRange<u64>,
        pattern: Option<PatternConstraint>,
        format: Option<String>,
        enumeration: Option<Vec<JsonValue>>,
    },
    Number {
        bounds: NumberBounds,
        multiple_of: Option<NumberMultipleOf>,
        enumeration: Option<Vec<JsonValue>>,
    },
    Integer {
        bounds: IntegerBounds,
        multiple_of: Option<IntegerMultipleOf>,
        enumeration: Option<Vec<JsonValue>>,
    },
    Boolean {
        enumeration: Option<Vec<JsonValue>>,
    },
    Null {
        enumeration: Option<Vec<JsonValue>>,
    },
    Object {
        properties: Vec<(String, SchemaNode)>,
        pattern_properties: Vec<PatternProperty>,
        required: Vec<String>,
        additional: Box<SchemaNode>,
        property_names: Box<SchemaNode>,
        property_count: CountRange<usize>,
        dependent_required: Vec<(String, Vec<String>)>,
        enumeration: Option<Vec<JsonValue>>,
    },
    Array {
        prefix_items: Vec<SchemaNode>,
        items: Box<SchemaNode>,
        item_count: CountRange<u64>,
        contains: Option<ContainsConstraint>,
        unique_items: bool,
        enumeration: Option<Vec<JsonValue>>,
    },
}

/// A schema.
#[derive(Debug)]
pub struct SchemaNode {
    pub kind: SchemaNodeKind,
}

impl SchemaNode {
    /// A schema of the given kind.
    pub fn new(kind: SchemaNodeKind) -> (s: Self)
        ensures
            s.kind == kind,
    {
        SchemaNode { kind }
    }

    /// The typed form of this schema.
    pub fn kind(&self) -> (k: &SchemaNodeKind)
        ensures
            *k == self.kind,
    {
        &self.kind
    }
}

} // verus!
