use jsoncompat::analysis::SubschemaAnalysis;

#[test]
fn compatible_analysis_has_no_explanation() {
    let a = SubschemaAnalysis::compatible();
    assert!(a.is_subschema);
    assert!(a.explanation.is_none());
}

use jsoncompat::analysis::ExplanationMode;
use jsoncompat::explanation::SubschemaExplanation;

#[test]
fn from_check_success_ignores_explanation() {
    let a = SubschemaAnalysis::from_check(true, ExplanationMode::Explain, || {
        Some(SubschemaExplanation::new("unused".to_string()))
    });
    assert!(a.is_subschema);
    assert!(a.explanation.is_none());
}

#[test]
fn from_check_failure_explains_only_when_asked() {
    let quiet = SubschemaAnalysis::from_check(false, ExplanationMode::VerdictOnly, || {
        Some(SubschemaExplanation::new("why".to_string()))
    });
    assert!(!quiet.is_subschema);
    assert!(quiet.explanation.is_none());
    let loud = SubschemaAnalysis::from_check(false, ExplanationMode::Explain, || {
        Some(SubschemaExplanation::new("why".to_string()))
    });
    assert!(!loud.is_subschema);
    assert_eq!(loud.explanation.unwrap().render("new", "old"), "new schema #: why");
}
