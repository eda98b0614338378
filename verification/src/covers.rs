//! Whole-type covers: unions whose branches accept entire JSON types, and
//! what a negated union leaves over.

use vstd::prelude::*;
use crate::json::{JsonValue, json_type_bit, JSON_TYPE_NULL, JSON_TYPE_BOOL, JSON_TYPE_NUMBER, JSON_TYPE_STRING,
    JSON_TYPE_ARRAY, JSON_TYPE_OBJECT};
use crate::schema::SchemaNode;
use crate::semantics::accepts;
use crate::bits::is_type_bit;
use crate::types::{may_have_type, obviously_accepts_type, schema_obviously_accepts_json_type, schema_may_accept_json_type,
    lemma_type_facts_sound};

verus! {

/// Whether some branch accepts every value of type `t`.
pub open spec fn some_branch_obviously_accepts(branches: Seq<SchemaNode>, t: u8) -> bool {
    exists|i: int| 0 <= i < branches.len() && obviously_accepts_type(#[trigger] branches[i], t)
}

/// Whether some branch accepts every value of type `bit`.
pub(crate) fn any_branch_obviously_accepts(branches: &[SchemaNode], bit: u8) -> (r: bool)
    requires
        is_type_bit(bit),
    ensures
        r == some_branch_obviously_accepts(branches@, bit),
{
    let mut i: usize = 0;
    while i < branches.len()
        invariant
            i <= branches@.len(),
            is_type_bit(bit),
            forall|k: int| 0 <= k < i ==> !obviously_accepts_type(#[trigger] branches@[k], bit),
        decreases branches@.len() - i,
    {
        if schema_obviously_accepts_json_type(&branches[i], bit) {
            return true;
        }
        i = i + 1;
    }
    false
}

/// The test `negated_union_type_remainder_subset_of` performs: every type
/// no branch accepts wholesale is accepted wholesale by `sup`.
pub open spec fn remainder_covered(branches: Seq<SchemaNode>, sup: SchemaNode) -> bool {
    forall|t: u8| is_type_bit(t) && !some_branch_obviously_accepts(branches, t) ==> #[trigger] obviously_accepts_type(sup, t)
}

/// The per-type part of `negated_union_type_remainder_subset_of`.
fn remainder_type_covered(branches: &[SchemaNode], sup: &SchemaNode, bit: u8) -> (r: bool)
    requires
        is_type_bit(bit),
    ensures
        r == (some_branch_obviously_accepts(branches@, bit) || obviously_accepts_type(*sup, bit)),
{
    any_branch_obviously_accepts(branches, bit) || schema_obviously_accepts_json_type(sup, bit)
}

/// Whether `not anyOf(branches)` is contained in `sup` by types alone: each
/// type that no branch accepts wholesale (and so may survive the negation)
/// is accepted wholesale by `sup`.
pub fn negated_union_type_remainder_subset_of(branches: &[SchemaNode], sup: &SchemaNode) -> (r: bool)
    ensures
        r == remainder_covered(branches@, *sup),
        r ==> forall|v: JsonValue, rx: spec_fn(Seq<char>, Seq<char>) -> bool|
            (forall|i: int| 0 <= i < branches@.len() ==> !accepts(#[trigger] branches@[i], v, rx)) ==> #[trigger] accepts(*sup, v, rx),
{
    let r = remainder_type_covered(branches, sup, JSON_TYPE_NULL)
        && remainder_type_covered(branches, sup, JSON_TYPE_BOOL)
        && remainder_type_covered(branches, sup, JSON_TYPE_NUMBER)
        && remainder_type_covered(branches, sup, JSON_TYPE_STRING)
        && remainder_type_covered(branches, sup, JSON_TYPE_ARRAY)
        && remainder_type_covered(branches, sup, JSON_TYPE_OBJECT);
    proof {
        assert forall|v: JsonValue, rx: spec_fn(Seq<char>, Seq<char>) -> bool|
            r && (forall|i: int| 0 <= i < branches@.len() ==> !accepts(#[trigger] branches@[i], v, rx))
            implies #[trigger] accepts(*sup, v, rx) by {
            let t = json_type_bit(v);
            assert(is_type_bit(t));
            if some_branch_obviously_accepts(branches@, t) {
                let i = choose|i: int| 0 <= i < branches@.len() && obviously_accepts_type(#[trigger] branches@[i], t);
                lemma_type_facts_sound(branches@[i], v, rx);
            } else {
                lemma_type_facts_sound(*sup, v, rx);
            }
        }
    }
    r
}

/// The test `any_of_obvious_type_cover_contains` performs: each type `sub`
/// may accept is accepted wholesale by some branch.
pub open spec fn type_cover_contains(sub: SchemaNode, branches: Seq<SchemaNode>) -> bool {
    forall|t: u8| is_type_bit(t) && #[trigger] may_have_type(sub, t) ==> some_branch_obviously_accepts(branches, t)
}

/// The per-type part of `any_of_obvious_type_cover_contains`.
fn type_covered(sub: &SchemaNode, branches: &[SchemaNode], bit: u8) -> (r: bool)
    requires
        is_type_bit(bit),
    ensures
        r == (may_have_type(*sub, bit) ==> some_branch_obviously_accepts(branches@, bit)),
{
    !schema_may_accept_json_type(sub, bit) || any_branch_obviously_accepts(branches, bit)
}

/// Whether the union of `branches` contains `sub` by types alone: every
/// type `sub` may accept is accepted wholesale by some branch.
pub fn any_of_obvious_type_cover_contains(sub: &SchemaNode, branches: &[SchemaNode]) -> (r: bool)
    ensures
        r == type_cover_contains(*sub, branches@),
        r ==> forall|v: JsonValue, rx: spec_fn(Seq<char>, Seq<char>) -> bool| #[trigger] accepts(*sub, v, rx)
            ==> exists|i: int| 0 <= i < branches@.len() && accepts(#[trigger] branches@[i], v, rx),
{
    let r = type_covered(sub, branches, JSON_TYPE_NULL)
        && type_covered(sub, branches, JSON_TYPE_BOOL)
        && type_covered(sub, branches, JSON_TYPE_NUMBER)
        && type_covered(sub, branches, JSON_TYPE_STRING)
        && type_covered(sub, branches, JSON_TYPE_ARRAY)
        && type_covered(sub, branches, JSON_TYPE_OBJECT);
    proof {
        assert forall|v: JsonValue, rx: spec_fn(Seq<char>, Seq<char>) -> bool| r && #[trigger] accepts(*sub, v, rx)
            implies exists|i: int| 0 <= i < branches@.len() && accepts(#[trigger] branches@[i], v, rx) by {
            let t = json_type_bit(v);
            assert(is_type_bit(t));
            lemma_type_facts_sound(*sub, v, rx);
            let i = choose|i: int| 0 <= i < branches@.len() && obviously_accepts_type(#[trigger] branches@[i], t);
            lemma_type_facts_sound(branches@[i], v, rx);
        }
    }
    r
}

} // verus!
