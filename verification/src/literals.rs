//! Whether a schema rejects one given string outright, read off its shape.
//!
//! Regular expressions are answered by a caller-supplied matcher, so the
//! facts here hold for whatever pattern dialect that matcher implements.

use vstd::prelude::*;
use crate::json::{JsonValue, str_eq};
use crate::schema::{SchemaNode, SchemaNodeKind, PatternSupport, PatternConstraint};
use crate::semantics::accepts;

verus! {

/// Whether `v` is the string `name`.
pub open spec fn is_string(v: JsonValue, name: Seq<char>) -> bool {
    v matches JsonValue::String(t) && t@ == name
}

/// Whether some of `values` is the string `name`.
pub open spec fn lists_string(values: Seq<JsonValue>, name: Seq<char>) -> bool {
    exists|i: int| 0 <= i < values.len() && is_string(#[trigger] values[i], name)
}

/// Whether schema `s` rejects the string `name` outright, `m(pattern, text)`
/// being what a pattern engine answers (`None`: it cannot tell):
/// - `false` rejects it, `true` and `{}` do not;
/// - `const` and `enum` reject a string they do not list;
/// - a string schema rejects it when its enumeration does not list it, when
///   its length lies outside `minLength..=maxLength`, or when its supported
///   pattern does not match it;
/// - `allOf` rejects what some conjunct rejects, a non-empty `anyOf` or
///   `oneOf` what every branch rejects; anything else is unknown (false).
pub open spec fn literal_rejected(s: SchemaNode, name: Seq<char>, m: spec_fn(Seq<char>, Seq<char>) -> Option<bool>) -> bool
    decreases s,
{
    match s.kind {
        SchemaNodeKind::BoolSchema(b) => !b,
        SchemaNodeKind::Const(v) => !is_string(v, name),
        SchemaNodeKind::Enum(values) => !lists_string(values@, name),
        SchemaNodeKind::String { length, pattern, enumeration, .. } => {
            ||| (enumeration matches Some(values) && !lists_string(values@, name))
            ||| name.len() < length.min
            ||| (length.max matches Some(mx) && name.len() > mx)
            ||| (pattern matches Some(p) && p.support == PatternSupport::Supported && m(p.source@, name) == Some(false))
        },
        SchemaNodeKind::AllOf(children) => exists|i: int| 0 <= i < children@.len()
            && literal_rejected(#[trigger] children@[i], name, m),
        SchemaNodeKind::AnyOf(children) => children@.len() > 0 && forall|i: int| 0 <= i < children@.len()
            ==> literal_rejected(#[trigger] children@[i], name, m),
        SchemaNodeKind::OneOf(children) => children@.len() > 0 && forall|i: int| 0 <= i < children@.len()
            ==> literal_rejected(#[trigger] children@[i], name, m),
        _ => false,
    }
}

/// Whether the executable matcher answers as `m` does.
pub open spec fn matcher_agrees<F: Fn(&str, &str) -> Option<bool>>(matcher: F, m: spec_fn(Seq<char>, Seq<char>) -> Option<bool>) -> bool {
    forall|p: &str, t: &str, r: Option<bool>| #[trigger] matcher.ensures((p, t), r) ==> r == m(p@, t@)
}

/// Whether the matcher may be called on any pattern and text.
pub open spec fn matcher_callable<F: Fn(&str, &str) -> Option<bool>>(matcher: F) -> bool {
    forall|p: &str, t: &str| #[trigger] matcher.requires((p, t))
}

/// Whether `m`'s definite answers are those of the regex semantics `rx`.
pub open spec fn answers_follow(m: spec_fn(Seq<char>, Seq<char>) -> Option<bool>, rx: spec_fn(Seq<char>, Seq<char>) -> bool) -> bool {
    forall|p: Seq<char>, t: Seq<char>| #[trigger] m(p, t) matches Some(b) ==> rx(p, t) == b
}

/// Whether some of `values` is the string `name`.
fn values_list_string(values: &Vec<JsonValue>, name: &str) -> (r: bool)
    ensures
        r == lists_string(values@, name@),
{
    let mut i: usize = 0;
    while i < values.len()
        invariant
            i <= values@.len(),
            forall|j: int| 0 <= j < i ==> !is_string(#[trigger] values@[j], name@),
        decreases values@.len() - i,
    {
        match values[i].as_str() {
            Some(text) => if str_eq(text, name) {
                return true;
            },
            None => {},
        }
        i = i + 1;
    }
    false
}

/// Whether `schema` rejects the string `name` outright (see
/// `literal_rejected`); `matcher(pattern, text)` answers supported patterns.
pub fn string_literal_definitely_rejected<F: Fn(&str, &str) -> Option<bool>>(schema: &SchemaNode, name: &str, matcher: &F) -> (r: bool)
    requires
        matcher_callable(*matcher),
    ensures
        forall|m: spec_fn(Seq<char>, Seq<char>) -> Option<bool>| matcher_agrees(*matcher, m)
            ==> r == #[trigger] literal_rejected(*schema, name@, m),
    decreases *schema, 1nat,
{
    match &schema.kind {
        SchemaNodeKind::BoolSchema(b) => !*b,
        SchemaNodeKind::Const(value) => match value.as_str() {
            Some(text) => !str_eq(text, name),
            None => true,
        },
        SchemaNodeKind::Enum(values) => !values_list_string(values, name),
        SchemaNodeKind::String { length, pattern, enumeration, .. } => {
            let unlisted = match enumeration {
                Some(values) => !values_list_string(values, name),
                None => false,
            };
            if unlisted {
                return true;
            }
            let len = name.unicode_len() as u64;
            if len < length.min {
                return true;
            }
            match length.max {
                Some(mx) => if len > mx {
                    return true;
                },
                None => {},
            }
            match pattern {
                Some(p) => {
                    if p.support == PatternSupport::Supported {
                        let source = p.source.as_str();
                        let answer = matcher(source, name);
                        let r = answer == Some(false);
                        proof {
                            assert(source@ == p.source@);
                            assert forall|m: spec_fn(Seq<char>, Seq<char>) -> Option<bool>| matcher_agrees(*matcher, m)
                                implies r == #[trigger] literal_rejected(*schema, name@, m) by {
                                assert((*matcher).ensures((source, name), answer));
                                assert(answer == m(p.source@, name@));
                            }
                        }
                        r
                    } else {
                        false
                    }
                },
                None => false,
            }
        },
        SchemaNodeKind::AllOf(children) => {
            let mut i: usize = 0;
            while i < children.len()
                invariant
                    i <= children@.len(),
                    schema.kind == SchemaNodeKind::AllOf(*children),
                    matcher_callable(*matcher),
                    forall|m: spec_fn(Seq<char>, Seq<char>) -> Option<bool>, j: int| matcher_agrees(*matcher, m) && 0 <= j < i
                        ==> !#[trigger] literal_rejected(children@[j], name@, m),
                decreases children@.len() - i,
            {
                proof {
                    assert(decreases_to!(*schema => schema.kind));
                    assert(decreases_to!(schema.kind => schema.kind->AllOf_0));
                    assert(decreases_to!(*children => children[i as int]));
                }
                if string_literal_definitely_rejected(&children[i], name, matcher) {
                    proof {
                        assert forall|m: spec_fn(Seq<char>, Seq<char>) -> Option<bool>| matcher_agrees(*matcher, m)
                            implies #[trigger] literal_rejected(*schema, name@, m) by {
                            assert(literal_rejected(children@[i as int], name@, m));
                        }
                    }
                    return true;
                }
                i = i + 1;
            }
            proof {
                assert forall|m: spec_fn(Seq<char>, Seq<char>) -> Option<bool>| matcher_agrees(*matcher, m)
                    implies !#[trigger] literal_rejected(*schema, name@, m) by {
                    if literal_rejected(*schema, name@, m) {
                        let k = choose|k: int| 0 <= k < children@.len() && literal_rejected(#[trigger] children@[k], name@, m);
                        assert(!literal_rejected(children@[k], name@, m));
                    }
                }
            }
            false
        },
        SchemaNodeKind::AnyOf(children) => {
            let r = every_branch_rejects(schema, children, name, matcher);
            proof {
                assert forall|m: spec_fn(Seq<char>, Seq<char>) -> Option<bool>| matcher_agrees(*matcher, m)
                    implies r == #[trigger] literal_rejected(*schema, name@, m) by {
                    assert(matcher_agrees(*matcher, m));
                    assert(r == (children@.len() > 0 && forall|j: int| 0 <= j < children@.len()
                        ==> #[trigger] literal_rejected(children@[j], name@, m)));
                    if r {
                        assert forall|i: int| 0 <= i < children@.len() implies literal_rejected(#[trigger] children@[i], name@, m) by {
                            assert(literal_rejected(children@[i], name@, m));
                        }
                        assert(literal_rejected(*schema, name@, m));
                    } else {
                        assert(!literal_rejected(*schema, name@, m));
                    }
                }
            }
            r
        },
        SchemaNodeKind::OneOf(children) => {
            let r = every_branch_rejects(schema, children, name, matcher);
            proof {
                assert forall|m: spec_fn(Seq<char>, Seq<char>) -> Option<bool>| matcher_agrees(*matcher, m)
                    implies r == #[trigger] literal_rejected(*schema, name@, m) by {
                    assert(matcher_agrees(*matcher, m));
                    assert(r == (children@.len() > 0 && forall|j: int| 0 <= j < children@.len()
                        ==> #[trigger] literal_rejected(children@[j], name@, m)));
                    if r {
                        assert forall|i: int| 0 <= i < children@.len() implies literal_rejected(#[trigger] children@[i], name@, m) by {
                            assert(literal_rejected(children@[i], name@, m));
                        }
                        assert(literal_rejected(*schema, name@, m));
                    } else {
                        assert(!literal_rejected(*schema, name@, m));
                    }
                }
            }
            r
        },
        _ => false,
    }
}

/// Whether the union `schema` with branches `children` has branches and
/// every one rejects `name` outright.
fn every_branch_rejects<F: Fn(&str, &str) -> Option<bool>>(schema: &SchemaNode, children: &Vec<SchemaNode>, name: &str, matcher: &F) -> (r: bool)
    requires
        matcher_callable(*matcher),
        schema.kind == SchemaNodeKind::AnyOf(*children) || schema.kind == SchemaNodeKind::OneOf(*children),
    ensures
        forall|m: spec_fn(Seq<char>, Seq<char>) -> Option<bool>| #[trigger] matcher_agrees(*matcher, m)
            ==> r == (children@.len() > 0 && forall|j: int| 0 <= j < children@.len()
                ==> #[trigger] literal_rejected(children@[j], name@, m)),
    decreases *schema, 0nat,
{
    if children.len() == 0 {
        return false;
    }
    let mut i: usize = 0;
    while i < children.len()
        invariant
            i <= children@.len(),
            schema.kind == SchemaNodeKind::AnyOf(*children) || schema.kind == SchemaNodeKind::OneOf(*children),
            matcher_callable(*matcher),
            forall|m: spec_fn(Seq<char>, Seq<char>) -> Option<bool>, j: int| matcher_agrees(*matcher, m) && 0 <= j < i
                ==> #[trigger] literal_rejected(children@[j], name@, m),
        decreases children@.len() - i,
    {
        proof {
            assert(decreases_to!(*schema => schema.kind));
            if schema.kind == SchemaNodeKind::AnyOf(*children) {
                assert(decreases_to!(schema.kind => schema.kind->AnyOf_0));
            } else {
                assert(decreases_to!(schema.kind => schema.kind->OneOf_0));
            }
            assert(decreases_to!(*children => children[i as int]));
        }
        if !string_literal_definitely_rejected(&children[i], name, matcher) {
            proof {
                assert forall|m: spec_fn(Seq<char>, Seq<char>) -> Option<bool>| matcher_agrees(*matcher, m)
                    implies !(forall|j: int| 0 <= j < children@.len() ==> #[trigger] literal_rejected(children@[j], name@, m)) by {
                    assert(!literal_rejected(children@[i as int], name@, m));
                }
            }
            return false;
        }
        i = i + 1;
    }
    true
}

/// Law: a schema that rejects the string `name` outright accepts no such
/// string, under every regex semantics that agrees with the matcher's
/// definite answers.
pub proof fn lemma_literal_rejected_sound(s: SchemaNode, t: String, m: spec_fn(Seq<char>, Seq<char>) -> Option<bool>,
    rx: spec_fn(Seq<char>, Seq<char>) -> bool)
    requires
        answers_follow(m, rx),
        literal_rejected(s, t@, m),
    ensures
        !accepts(s, JsonValue::String(t), rx),
    decreases s,
{
    let v = JsonValue::String(t);
    match s.kind {
        SchemaNodeKind::Enum(values) => {
            if accepts(s, v, rx) {
                let i = choose|i: int| 0 <= i < values@.len() && crate::json::json_eq(v, #[trigger] values@[i]);
                assert(is_string(values@[i], t@));
            }
        },
        SchemaNodeKind::String { length, pattern, enumeration, .. } => {
            match enumeration {
                Some(values) => if !lists_string(values@, t@) && accepts(s, v, rx) {
                    let i = choose|i: int| 0 <= i < values@.len() && crate::json::json_eq(v, #[trigger] values@[i]);
                    assert(is_string(values@[i], t@));
                },
                None => {},
            }
            match pattern {
                Some(p) => if p.support == PatternSupport::Supported && m(p.source@, t@) == Some(false) {
                    assert(rx(p.source@, t@) == false);
                },
                None => {},
            }
        },
        SchemaNodeKind::AllOf(children) => {
            let i = choose|i: int| 0 <= i < children@.len() && literal_rejected(#[trigger] children@[i], t@, m);
            lemma_literal_rejected_sound(children@[i], t, m, rx);
        },
        SchemaNodeKind::AnyOf(children) => {
            if accepts(s, v, rx) {
                let i = choose|i: int| 0 <= i < children@.len() && accepts(#[trigger] children@[i], v, rx);
                assert(literal_rejected(children@[i], t@, m));
                lemma_literal_rejected_sound(children@[i], t, m, rx);
            }
        },
        SchemaNodeKind::OneOf(children) => {
            if accepts(s, v, rx) {
                let i = choose|i: int| 0 <= i < children@.len() && accepts(#[trigger] children@[i], v, rx)
                    && forall|j: int| 0 <= j < children@.len() && j != i ==> !accepts(#[trigger] children@[j], v, rx);
                assert(literal_rejected(children@[i], t@, m));
                lemma_literal_rejected_sound(children@[i], t, m, rx);
            }
        },
        _ => {},
    }
}

/// Whether a pattern is supported and the matcher says it matches `name`.
pub fn pattern_definitely_matches_property_name<F: Fn(&str, &str) -> Option<bool>>(pattern: &PatternConstraint, name: &str, matcher: &F)
    -> (r: bool)
    requires
        matcher_callable(*matcher),
    ensures
        forall|m: spec_fn(Seq<char>, Seq<char>) -> Option<bool>| #[trigger] matcher_agrees(*matcher, m)
            ==> r == (pattern.support == PatternSupport::Supported && m(pattern.source@, name@) == Some(true)),
{
    match pattern.support {
        PatternSupport::Supported => {
            let source = pattern.source.as_str();
            let answer = matcher(source, name);
            proof {
                assert forall|m: spec_fn(Seq<char>, Seq<char>) -> Option<bool>| #[trigger] matcher_agrees(*matcher, m)
                    implies answer == m(pattern.source@, name@) by {
                    assert((*matcher).ensures((source, name), answer));
                }
            }
            answer == Some(true)
        },
        PatternSupport::Unsupported => false,
    }
}

/// Whether a pattern may match `name`: an unsupported one may match
/// anything, a supported one matches unless the matcher says it does not.
pub fn pattern_may_match_property_name<F: Fn(&str, &str) -> Option<bool>>(pattern: &PatternConstraint, name: &str, matcher: &F)
    -> (r: bool)
    requires
        matcher_callable(*matcher),
    ensures
        forall|m: spec_fn(Seq<char>, Seq<char>) -> Option<bool>| #[trigger] matcher_agrees(*matcher, m)
            ==> r == (pattern.support == PatternSupport::Unsupported || m(pattern.source@, name@) != Some(false)),
        forall|m: spec_fn(Seq<char>, Seq<char>) -> Option<bool>, rx: spec_fn(Seq<char>, Seq<char>) -> bool|
            #[trigger] matcher_agrees(*matcher, m) && #[trigger] answers_follow(m, rx) && rx(pattern.source@, name@) ==> r,
{
    match pattern.support {
        PatternSupport::Supported => {
            let source = pattern.source.as_str();
            let answer = matcher(source, name);
            proof {
                assert forall|m: spec_fn(Seq<char>, Seq<char>) -> Option<bool>| #[trigger] matcher_agrees(*matcher, m)
                    implies answer == m(pattern.source@, name@) by {
                    assert((*matcher).ensures((source, name), answer));
                }
            }
            answer != Some(false)
        },
        PatternSupport::Unsupported => true,
    }
}

} // verus!
