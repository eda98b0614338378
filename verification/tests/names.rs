use jsoncompat::names::{
    dependent_requirement_is_guaranteed, effective_property_count_with_forced_names, names_contain, names_forced_by_required,
    names_forced_by_required_and_property, property_name_can_fit_count, property_name_can_fit_with_dependencies,
};
use jsoncompat::schema::CountRange;

fn names(items: &[&str]) -> Vec<String> {
    items.iter().map(|s| s.to_string()).collect()
}

fn rules() -> Vec<(String, Vec<String>)> {
    vec![
        ("a".to_string(), names(&["b"])),
        ("b".to_string(), names(&["c", "a"])),
        ("x".to_string(), names(&["y"])),
    ]
}

fn sorted(mut v: Vec<String>) -> Vec<String> {
    v.sort();
    v
}

#[test]
fn forced_names_follow_rule_chains() {
    assert_eq!(sorted(names_forced_by_required(&names(&["a"]), &rules())), names(&["a", "b", "c"]));
    assert_eq!(sorted(names_forced_by_required(&names(&["c", "c"]), &rules())), names(&["c"]));
    assert_eq!(names_forced_by_required(&names(&[]), &rules()), names(&[]));
}

#[test]
fn forced_names_with_an_extra_property() {
    assert_eq!(
        sorted(names_forced_by_required_and_property(&names(&["q"]), "x", &rules())),
        names(&["q", "x", "y"])
    );
}

#[test]
fn dependent_requirements() {
    assert!(dependent_requirement_is_guaranteed("a", "c", &names(&[]), &rules()));
    assert!(!dependent_requirement_is_guaranteed("x", "c", &names(&[]), &rules()));
    assert!(dependent_requirement_is_guaranteed("x", "y", &names(&[]), &rules()));
    assert!(dependent_requirement_is_guaranteed("z", "z", &names(&[]), &rules()));
    assert!(dependent_requirement_is_guaranteed("x", "c", &names(&["c"]), &rules()));
    assert!(!dependent_requirement_is_guaranteed("c", "a", &names(&[]), &rules()));
}

#[test]
fn name_lookup() {
    assert!(names_contain(&names(&["a", "é"]), "é"));
    assert!(!names_contain(&names(&["a"]), "A"));
}

#[test]
fn property_names_fit_the_count() {
    let required = names(&["a", "b"]);
    assert!(property_name_can_fit_count("a", &required, CountRange { min: 0, max: Some(2) }));
    assert!(!property_name_can_fit_count("c", &required, CountRange { min: 0, max: Some(2) }));
    assert!(property_name_can_fit_count("c", &required, CountRange { min: 0, max: Some(3) }));
    assert!(property_name_can_fit_count("c", &required, CountRange { min: 0, max: None }));
}

#[test]
fn forced_names_raise_the_minimum() {
    let forced = names(&["a", "b", "c"]);
    assert_eq!(effective_property_count_with_forced_names(CountRange { min: 1, max: Some(5) }, &forced), Some(CountRange { min: 3, max: Some(5) }));
    assert_eq!(effective_property_count_with_forced_names(CountRange { min: 4, max: None }, &forced), Some(CountRange { min: 4, max: None }));
    assert_eq!(effective_property_count_with_forced_names(CountRange { min: 0, max: Some(2) }, &forced), None);
}

#[test]
fn property_fits_with_its_dependency_chain() {
    let count = |max| CountRange { min: 0usize, max: Some(max) };
    // "x" forces "y": with "r" required that is three names.
    assert!(property_name_can_fit_with_dependencies("x", &names(&["r"]), count(3), &rules()));
    assert!(!property_name_can_fit_with_dependencies("x", &names(&["r"]), count(2), &rules()));
    // "a" forces "b" and "c".
    assert!(!property_name_can_fit_with_dependencies("a", &names(&[]), count(2), &rules()));
    assert!(property_name_can_fit_with_dependencies("a", &names(&[]), count(3), &rules()));
    // A required name always fits while the required names do.
    assert!(property_name_can_fit_with_dependencies("a", &names(&["a", "q"]), count(2), &rules()));
    assert!(!property_name_can_fit_with_dependencies("a", &names(&["a", "q", "r"]), count(2), &rules()));
    // Without maxProperties anything fits.
    assert!(property_name_can_fit_with_dependencies("a", &names(&["p", "q"]), CountRange { min: 5, max: None }, &rules()));
    // No room beside the required names.
    assert!(!property_name_can_fit_with_dependencies("z", &names(&["p", "q"]), count(2), &rules()));
}
