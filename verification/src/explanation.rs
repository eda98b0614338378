//! Failure explanations for subset checks: a reason, the chain of nested
//! contexts it arose under, and the schema location it points at.

use vstd::prelude::*;
use crate::pointer::{JsonPointer, render_pointer};
use crate::text::{decimal, u64_to_decimal};

verus! {

/// Which of the two compared schemas an explanation points into.
#[derive(Clone, Copy, Debug, PartialEq, Eq, Structural)]
pub enum ExplanationSchemaSide {
    Subset,
    Superset,
}

/// Joins `parts` with `sep` between consecutive parts.
pub open spec fn join(parts: Seq<Seq<char>>, sep: Seq<char>) -> Seq<char>
    decreases parts.len(),
{
    if parts.len() == 0 {
        Seq::empty()
    } else if parts.len() == 1 {
        parts[0]
    } else {
        join(parts.drop_last(), sep) + sep + parts.last()
    }
}

/// `"anyOf branch 3"`-style text: a label followed by a one-based position.
pub open spec fn numbered(label: Seq<char>, index: nat) -> Seq<char> {
    label + decimal(index + 1)
}

/// The text of the reason line, with its context chain when there is one.
pub open spec fn reason_line(segments: Seq<Seq<char>>, reason: Seq<char>) -> Seq<char> {
    if segments.len() == 0 {
        reason
    } else {
        join(segments, " -> "@) + ": "@ + reason
    }
}

/// A diagnostic explaining why a subset relation could not be shown.
#[derive(Clone, Debug, PartialEq, Eq)]
pub struct SubschemaExplanation {
    segments: Vec<String>,
    reason: String,
    schema_path: JsonPointer,
    schema_side: ExplanationSchemaSide,
}

impl SubschemaExplanation {
    /// Context labels, outermost first.
    pub closed spec fn segments(&self) -> Seq<Seq<char>> {
        self.segments@.map_values(|s: String| s@)
    }

    /// The innermost reason.
    pub closed spec fn reason(&self) -> Seq<char> {
        self.reason@
    }

    /// Reference tokens of the schema location.
    pub closed spec fn path(&self) -> Seq<Seq<char>> {
        self.schema_path.tokens()
    }

    /// Which schema the location points into.
    pub closed spec fn side(&self) -> ExplanationSchemaSide {
        self.schema_side
    }

    /// A bare explanation at the subset schema's root.
    pub fn new(reason: String) -> (e: Self)
        ensures
            e.segments() == Seq::<Seq<char>>::empty(),
            e.reason() == reason@,
            e.path() == Seq::<Seq<char>>::empty(),
            e.side() == ExplanationSchemaSide::Subset,
    {
        let e = SubschemaExplanation {
            segments: Vec::new(),
            reason,
            schema_path: JsonPointer::root(),
            schema_side: ExplanationSchemaSide::Subset,
        };
        assert(e.segments() =~= Seq::<Seq<char>>::empty());
        e
    }

    /// Wraps the explanation in one more (outer) context label.
    pub fn under(self, segment: String) -> (e: Self)
        ensures
            e.segments() == seq![segment@] + self.segments(),
            e.reason() == self.reason(),
            e.path() == self.path(),
            e.side() == self.side(),
    {
        let mut e = self;
        e.segments.insert(0, segment);
        assert(e.segments() =~= seq![segment@] + self.segments());
        e
    }

    /// Marks the location as one inside the superset schema.
    pub fn in_superset(self) -> (e: Self)
        ensures
            e.segments() == self.segments(),
            e.reason() == self.reason(),
            e.path() == self.path(),
            e.side() == ExplanationSchemaSide::Superset,
    {
        let mut e = self;
        e.schema_side = ExplanationSchemaSide::Superset;
        e
    }

    /// Points one keyword deeper.
    pub fn at_keyword(self, keyword: &str) -> (e: Self)
        ensures
            e.segments() == self.segments(),
            e.reason() == self.reason(),
            e.path() == self.path().push(keyword@),
            e.side() == self.side(),
    {
        let mut e = self;
        e.schema_path.push(keyword);
        e
    }

    /// Points at `dependentRequired/<trigger>`.
    pub fn at_dependent_required(self, trigger: &str) -> (e: Self)
        ensures
            e.segments() == self.segments(),
            e.reason() == self.reason(),
            e.path() == self.path().push("dependentRequired"@).push(trigger@),
            e.side() == self.side(),
    {
        let mut e = self;
        e.schema_path.push("dependentRequired");
        e.schema_path.push(trigger);
        e
    }

    /// Points at `patternProperties/<pattern>`.
    pub fn at_pattern_property(self, pattern: &str) -> (e: Self)
        ensures
            e.segments() == self.segments(),
            e.reason() == self.reason(),
            e.path() == self.path().push("patternProperties"@).push(pattern@),
            e.side() == self.side(),
    {
        let mut e = self;
        e.schema_path.push("patternProperties");
        e.schema_path.push(pattern);
        e
    }

    /// Points at `properties/<property>`.
    pub fn at_property(self, property: &str) -> (e: Self)
        ensures
            e.segments() == self.segments(),
            e.reason() == self.reason(),
            e.path() == self.path().push("properties"@).push(property@),
            e.side() == self.side(),
    {
        let mut e = self;
        e.schema_path.push("properties");
        e.schema_path.push(property);
        e
    }

    /// Nests the explanation under `properties/<property>`.
    pub fn under_property(self, property: &str) -> (e: Self)
        ensures
            e.segments() == seq!["property '"@ + property@ + "'"@] + self.segments(),
            e.reason() == self.reason(),
            e.path() == seq!["properties"@, property@] + self.path(),
            e.side() == self.side(),
    {
        let mut e = self;
        let tokens: [&str; 2] = ["properties", property];
        e.schema_path.prepend(&tokens);
        assert(tokens@.map_values(|t: &str| t@) =~= seq!["properties"@, property@]);
        let mut label = String::new();
        label.push_str("property '");
        label.push_str(property);
        label.push_str("'");
        proof {
            reveal_strlit("properties");
            reveal_strlit("property '");
            reveal_strlit("'");
        }
        e.under(label)
    }

    /// Nests the explanation under `propertyNames`.
    pub fn under_property_names(self) -> (e: Self)
        ensures
            e.segments() == seq!["property names"@] + self.segments(),
            e.reason() == self.reason(),
            e.path() == seq!["propertyNames"@] + self.path(),
            e.side() == self.side(),
    {
        let mut e = self;
        let tokens: [&str; 1] = ["propertyNames"];
        e.schema_path.prepend(&tokens);
        assert(tokens@.map_values(|t: &str| t@) =~= seq!["propertyNames"@]);
        e.under("property names".to_owned())
    }
    /// Nests the explanation under `anyOf/<index>` of the schema it points into.
    pub fn under_any_of_branch(self, index: usize) -> (e: Self)
        requires
            index < u64::MAX,
        ensures
            e.segments() == seq![numbered("anyOf branch "@, index as nat)] + self.segments(),
            e.reason() == self.reason(),
            e.path() == seq!["anyOf"@, decimal(index as nat)] + self.path(),
            e.side() == self.side(),
    {
        let mut e = self;
        e.prepend_indexed("anyOf", index);
        e.under(numbered_label("anyOf branch ", index))
    }

    /// Nests under a subset-side `anyOf` branch; the location moves only when
    /// the explanation points into the subset schema.
    pub fn under_subset_any_of_branch(self, index: usize) -> (e: Self)
        requires
            index < u64::MAX,
        ensures
            e.segments() == seq![numbered("anyOf branch "@, index as nat)] + self.segments(),
            e.reason() == self.reason(),
            e.path() == (if self.side() == ExplanationSchemaSide::Subset {
                seq!["anyOf"@, decimal(index as nat)] + self.path()
            } else {
                self.path()
            }),
            e.side() == self.side(),
    {
        let mut e = self;
        if e.schema_side == ExplanationSchemaSide::Subset {
            e.prepend_indexed("anyOf", index);
        }
        e.under(numbered_label("anyOf branch ", index))
    }

    /// Nests under the superset `anyOf` branch judged closest; the location
    /// moves only when the explanation points into the superset schema.
    pub fn under_superset_any_of_branch(self, index: usize) -> (e: Self)
        ensures
            e.segments() == seq!["closest previous anyOf branch"@] + self.segments(),
            e.reason() == self.reason(),
            e.path() == (if self.side() == ExplanationSchemaSide::Superset {
                seq!["anyOf"@, decimal(index as nat)] + self.path()
            } else {
                self.path()
            }),
            e.side() == self.side(),
    {
        let mut e = self;
        if e.schema_side == ExplanationSchemaSide::Superset {
            e.prepend_indexed("anyOf", index);
        }
        e.under("closest previous anyOf branch".to_owned())
    }

    /// Nests under a required superset `allOf` branch; the location moves only
    /// when the explanation points into the superset schema.
    pub fn under_superset_all_of_branch(self, index: usize) -> (e: Self)
        requires
            index < u64::MAX,
        ensures
            e.segments() == seq![numbered("required allOf branch "@, index as nat)] + self.segments(),
            e.reason() == self.reason(),
            e.path() == (if self.side() == ExplanationSchemaSide::Superset {
                seq!["allOf"@, decimal(index as nat)] + self.path()
            } else {
                self.path()
            }),
            e.side() == self.side(),
    {
        let mut e = self;
        if e.schema_side == ExplanationSchemaSide::Superset {
            e.prepend_indexed("allOf", index);
        }
        e.under(numbered_label("required allOf branch ", index))
    }

    /// Nests the explanation under `oneOf/<index>`.
    pub fn under_one_of_branch(self, index: usize) -> (e: Self)
        requires
            index < u64::MAX,
        ensures
            e.segments() == seq![numbered("oneOf branch "@, index as nat)] + self.segments(),
            e.reason() == self.reason(),
            e.path() == seq!["oneOf"@, decimal(index as nat)] + self.path(),
            e.side() == self.side(),
    {
        let mut e = self;
        e.prepend_indexed("oneOf", index);
        e.under(numbered_label("oneOf branch ", index))
    }

    /// Nests the explanation under the conditional branch `keyword`
    /// (`then` or `else`).
    pub fn under_conditional_branch(self, keyword: &str) -> (e: Self)
        ensures
            e.segments() == seq!["conditional "@ + keyword@ + " branch"@] + self.segments(),
            e.reason() == self.reason(),
            e.path() == seq![keyword@] + self.path(),
            e.side() == self.side(),
    {
        let mut e = self;
        let tokens: [&str; 1] = [keyword];
        e.schema_path.prepend(&tokens);
        assert(tokens@.map_values(|t: &str| t@) =~= seq![keyword@]);
        let mut label = String::new();
        label.push_str("conditional ");
        label.push_str(keyword);
        label.push_str(" branch");
        e.under(label)
    }

    /// Nests the explanation under array item `index`: `prefixItems/<index>`
    /// when the side pointed into uses a tuple prefix there, `items` otherwise.
    pub fn under_array_item(self, index: usize, subset_uses_prefix: bool, superset_uses_prefix: bool) -> (e: Self)
        requires
            index < u64::MAX,
        ensures
            e.segments() == seq![numbered("array item "@, index as nat)] + self.segments(),
            e.reason() == self.reason(),
            e.path() == (if (self.side() == ExplanationSchemaSide::Subset && subset_uses_prefix)
                || (self.side() == ExplanationSchemaSide::Superset && superset_uses_prefix) {
                seq!["prefixItems"@, decimal(index as nat)] + self.path()
            } else {
                seq!["items"@] + self.path()
            }),
            e.side() == self.side(),
    {
        let mut e = self;
        let uses_prefix = match e.schema_side {
            ExplanationSchemaSide::Subset => subset_uses_prefix,
            ExplanationSchemaSide::Superset => superset_uses_prefix,
        };
        if uses_prefix {
            e.prepend_indexed("prefixItems", index);
        } else {
            let tokens: [&str; 1] = ["items"];
            e.schema_path.prepend(&tokens);
            assert(tokens@.map_values(|t: &str| t@) =~= seq!["items"@]);
        }
        e.under(numbered_label("array item ", index))
    }

    /// Nests the explanation under `items`.
    pub fn under_array_items(self) -> (e: Self)
        ensures
            e.segments() == seq!["array items"@] + self.segments(),
            e.reason() == self.reason(),
            e.path() == seq!["items"@] + self.path(),
            e.side() == self.side(),
    {
        let mut e = self;
        let tokens: [&str; 1] = ["items"];
        e.schema_path.prepend(&tokens);
        assert(tokens@.map_values(|t: &str| t@) =~= seq!["items"@]);
        e.under("array items".to_owned())
    }

    /// One line: `<label> schema <location>: <context> -> ...: <reason>`, where
    /// the label names the schema the location points into.
    pub fn render(&self, subset_label: &str, superset_label: &str) -> (s: String)
        ensures
            s@ == (match self.side() {
                ExplanationSchemaSide::Subset => subset_label@,
                ExplanationSchemaSide::Superset => superset_label@,
            }) + " schema "@ + render_pointer(self.path()) + ": "@
                + reason_line(self.segments(), self.reason()),
    {
        let mut out = String::new();
        match self.schema_side {
            ExplanationSchemaSide::Subset => out.push_str(subset_label),
            ExplanationSchemaSide::Superset => out.push_str(superset_label),
        }
        out.push_str(" schema ");
        let path = self.schema_path.render();
        out.push_str(path.as_str());
        out.push_str(": ");
        let ghost before = out@;
        if self.segments.len() > 0 {
            let mut i: usize = 0;
            while i < self.segments.len()
                invariant
                    0 <= i <= self.segments@.len(),
                    self.segments@.len() > 0,
                    i == 0 ==> out@ == before,
                    i > 0 ==> out@ == before + join(self.segments().take(i as int), " -> "@),
                decreases self.segments@.len() - i,
            {
                if i > 0 {
                    out.push_str(" -> ");
                }
                out.push_str(self.segments[i].as_str());
                proof {
                    let parts = self.segments().take(i + 1);
                    assert(parts.drop_last() =~= self.segments().take(i as int));
                    if i == 0 {
                        assert(parts.len() == 1);
                    }
                }
                i = i + 1;
            }
            assert(self.segments().take(i as int) =~= self.segments());
            out.push_str(": ");
        }
        out.push_str(self.reason.as_str());
        proof {
            assert(out@ =~= (match self.side() {
                ExplanationSchemaSide::Subset => subset_label@,
                ExplanationSchemaSide::Superset => superset_label@,
            }) + " schema "@ + render_pointer(self.path()) + ": "@
                + reason_line(self.segments(), self.reason()));
        }
        out
    }

    /// How many context labels wrap the reason.
    pub fn depth(&self) -> (n: usize)
        ensures
            n == self.segments().len(),
    {
        self.segments.len()
    }

    fn prepend_indexed(&mut self, keyword: &str, index: usize)
        ensures
            final(self).path() == seq![keyword@, decimal(index as nat)] + old(self).path(),
            final(self).segments() == old(self).segments(),
            final(self).reason() == old(self).reason(),
            final(self).side() == old(self).side(),
    {
        let digits = u64_to_decimal(index as u64);
        let tokens: [&str; 2] = [keyword, digits.as_str()];
        self.schema_path.prepend(&tokens);
        assert(tokens@.map_values(|t: &str| t@) =~= seq![keyword@, decimal(index as nat)]);
    }
}

fn numbered_label(label: &str, index: usize) -> (s: String)
    requires
        index < u64::MAX,
    ensures
        s@ == numbered(label@, index as nat),
{
    let mut s = String::new();
    s.push_str(label);
    let n: u64 = index as u64 + 1;
    crate::text::push_u64_decimal(&mut s, n);
    s
}

} // verus!
