//! Verdicts of subset proof rules, with an optional diagnostic.

use vstd::prelude::*;
use crate::explanation::SubschemaExplanation;

verus! {

/// Whether a rule should spend work building a diagnostic.
#[derive(Clone, Copy, Debug, PartialEq, Eq, Structural)]
pub enum ExplanationMode {
    VerdictOnly,
    Explain,
}

/// The outcome of one subset proof rule.
#[derive(Debug)]
pub struct SubschemaAnalysis {
    pub is_subschema: bool,
    pub explanation: Option<SubschemaExplanation>,
}

impl SubschemaAnalysis {
    /// A successful subset verdict, which never carries an explanation.
    pub fn compatible() -> (a: Self)
        ensures
            a.is_subschema,
            a.explanation is None,
    {
        SubschemaAnalysis { is_subschema: true, explanation: None }
    }

    /// Turns a rule's boolean verdict into an analysis. The diagnostic is
    /// built (by calling `explanation`) only for a failed verdict in
    /// `Explain` mode.
    pub fn from_check(
        is_subschema: bool,
        mode: ExplanationMode,
        explanation: impl FnOnce() -> Option<SubschemaExplanation>,
    ) -> (a: Self)
        requires
            call_requires(explanation, ()),
        ensures
            a.is_subschema == is_subschema,
            is_subschema ==> a.explanation is None,
            !is_subschema && mode == ExplanationMode::VerdictOnly ==> a.explanation is None,
            !is_subschema && mode == ExplanationMode::Explain ==> call_ensures(explanation, (), a.explanation),
    {
        if is_subschema {
            return Self::compatible();
        }
        let explanation = match mode {
            ExplanationMode::VerdictOnly => None,
            ExplanationMode::Explain => explanation(),
        };
        SubschemaAnalysis { is_subschema: false, explanation }
    }
}

} // verus!
