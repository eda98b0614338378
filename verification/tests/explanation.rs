use jsoncompat::explanation::SubschemaExplanation;
use jsoncompat::pointer::JsonPointer;

fn reason(text: &str) -> SubschemaExplanation {
    SubschemaExplanation::new(text.to_string())
}

#[test]
fn root_explanation_renders_reason_at_root() {
    let e = reason("types differ");
    assert_eq!(e.render("new", "old"), "new schema #: types differ");
    assert_eq!(e.depth(), 0);
}

#[test]
fn nested_contexts_render_outermost_first() {
    let e = reason("x").under_any_of_branch(2).under_property("a/b");
    assert_eq!(
        e.render("new", "old"),
        "new schema #/properties/a~1b/anyOf/2: property 'a/b' -> anyOf branch 3: x"
    );
    assert_eq!(e.depth(), 2);
}

#[test]
fn keywords_are_appended_after_contexts() {
    let e = reason("too short").at_keyword("minLength").under_property("name");
    assert_eq!(
        e.render("new", "old"),
        "new schema #/properties/name/minLength: property 'name': too short"
    );
}

#[test]
fn superset_side_uses_superset_label_and_superset_branches() {
    let e = reason("missing")
        .in_superset()
        .at_property("id")
        .under_superset_any_of_branch(1)
        .under_subset_any_of_branch(4);
    assert_eq!(
        e.render("new", "old"),
        "old schema #/anyOf/1/properties/id: anyOf branch 5 -> closest previous anyOf branch: missing"
    );
}

#[test]
fn subset_side_ignores_superset_branch_locations() {
    let e = reason("r").under_superset_all_of_branch(0).under_superset_any_of_branch(3);
    assert_eq!(
        e.render("new", "old"),
        "new schema #: closest previous anyOf branch -> required allOf branch 1: r"
    );
    assert_eq!(e.depth(), 2);
}

#[test]
fn array_items_choose_prefix_or_items_by_side() {
    let subset = reason("r").under_array_item(3, true, false);
    assert_eq!(subset.render("new", "old"), "new schema #/prefixItems/3: array item 4: r");
    let superset = reason("r").in_superset().under_array_item(3, true, false);
    assert_eq!(superset.render("new", "old"), "old schema #/items: array item 4: r");
    let items = reason("r").under_array_items();
    assert_eq!(items.render("new", "old"), "new schema #/items: array items: r");
}

#[test]
fn other_context_labels() {
    let e = reason("r")
        .at_dependent_required("card")
        .under_conditional_branch("then")
        .under_one_of_branch(0)
        .under_property_names();
    assert_eq!(
        e.render("new", "old"),
        "new schema #/propertyNames/oneOf/0/then/dependentRequired/card: property names -> oneOf branch 1 -> conditional then branch: r"
    );
    assert_eq!(e.depth(), 3);
}

#[test]
fn pattern_property_tokens_are_escaped() {
    let e = reason("r").at_pattern_property("~x/y").under("custom".to_string());
    assert_eq!(e.render("new", "old"), "new schema #/patternProperties/~0x~1y: custom: r");
}

#[test]
fn pointer_push_and_prepend() {
    let mut p = JsonPointer::root();
    assert_eq!(p.render(), "#");
    p.push("b");
    p.prepend(&["a", "0"]);
    p.push("~");
    assert_eq!(p.render(), "#/a/0/b/~0");
}
