use blockdata::compare::compare_lists;
use blockdata::{
    BlockComparison, EnumProperty, Identifier, ModernBlockData, ModernBlockList,
    PropertyComparison, PropertyValue,
};

fn strings(values: &[&str]) -> Vec<String> {
    values.iter().map(|v| v.to_string()).collect()
}

fn block(kinds: Vec<(&str, PropertyValue)>, base: i32) -> ModernBlockData {
    ModernBlockData::new(
        kinds.into_iter().map(|(n, v)| (n.to_string(), v)).collect(),
        base,
        None,
    )
}

#[test]
fn property_comparison_equal() {
    let r = PropertyComparison::compare(&strings(&["a", "b"]), &strings(&["a", "b"]));
    assert_eq!(r, PropertyComparison::Equal);
}

#[test]
fn property_comparison_missing_end() {
    let r = PropertyComparison::compare(&strings(&["a", "b"]), &strings(&["a", "b", "c"]));
    assert_eq!(r, PropertyComparison::MissingEnd);
}

#[test]
fn property_comparison_longer_end() {
    let r = PropertyComparison::compare(&strings(&["a", "b", "c"]), &strings(&["a", "b"]));
    assert_eq!(r, PropertyComparison::LongerEnd);
}

#[test]
fn property_comparison_different_ordering() {
    let r = PropertyComparison::compare(&strings(&["a", "b"]), &strings(&["b", "a"]));
    assert_eq!(r, PropertyComparison::DifferentOrdering);
}

#[test]
fn property_comparison_different_values() {
    let r = PropertyComparison::compare(&strings(&["a", "b"]), &strings(&["a", "c"]));
    assert_eq!(r, PropertyComparison::DifferentValues);
}

#[test]
fn block_comparison_equal() {
    let base = block(vec![("facing", PropertyValue::enum_name("facing")), ("lit", PropertyValue::bool())], 5);
    let target = block(vec![("facing", PropertyValue::enum_name("facing")), ("lit", PropertyValue::bool())], 9);
    assert_eq!(BlockComparison::compare(&base, &target), BlockComparison::Equal);
}

#[test]
fn block_comparison_more_properties() {
    let base = block(
        vec![("facing", PropertyValue::enum_name("facing")), ("lit", PropertyValue::bool())],
        0,
    );
    let target = block(vec![("facing", PropertyValue::enum_name("facing"))], 0);
    assert_eq!(BlockComparison::compare(&base, &target), BlockComparison::MoreProperties);
}

#[test]
fn block_comparison_less_properties() {
    let base = block(vec![("facing", PropertyValue::enum_name("facing"))], 0);
    let target = block(
        vec![("facing", PropertyValue::enum_name("facing")), ("lit", PropertyValue::bool())],
        0,
    );
    assert_eq!(BlockComparison::compare(&base, &target), BlockComparison::LessProperties);
}

#[test]
fn block_comparison_empty_base_has_less() {
    let base = block(Vec::new(), 0);
    let target = block(vec![("lit", PropertyValue::bool())], 0);
    assert_eq!(BlockComparison::compare(&base, &target), BlockComparison::LessProperties);
}

#[test]
fn block_comparison_different_enum() {
    let base = block(vec![("color", PropertyValue::enum_name("color"))], 0);
    let target = block(vec![("color", PropertyValue::enum_name("dye"))], 0);
    assert_eq!(BlockComparison::compare(&base, &target), BlockComparison::DifferentEnum);
}

#[test]
fn block_comparison_different_range() {
    let base = block(vec![("age", PropertyValue::range(0, 7))], 0);
    let target = block(vec![("age", PropertyValue::range(0, 3))], 0);
    assert_eq!(BlockComparison::compare(&base, &target), BlockComparison::DifferentRange);
}

#[test]
fn block_comparison_different_type() {
    let base = block(vec![("age", PropertyValue::range(0, 7))], 0);
    let target = block(vec![("age", PropertyValue::bool())], 0);
    assert_eq!(BlockComparison::compare(&base, &target), BlockComparison::DifferentType);
}

#[test]
fn block_comparison_different_order() {
    let base = block(
        vec![("lit", PropertyValue::bool()), ("age", PropertyValue::range(0, 7))],
        0,
    );
    let target = block(
        vec![("age", PropertyValue::range(0, 7)), ("lit", PropertyValue::bool())],
        0,
    );
    assert_eq!(BlockComparison::compare(&base, &target), BlockComparison::DifferentOrder);
}

#[test]
fn comparison_report_counts_shared_and_missing() {
    let base = ModernBlockList::new(
        None,
        vec![
            ("color".to_string(), EnumProperty::new(strings(&["red", "green"]))),
            ("shape".to_string(), EnumProperty::new(strings(&["round"]))),
        ],
        vec![
            (Identifier::from_location("one"), block(vec![("lit", PropertyValue::bool())], 0)),
            (Identifier::from_location("two"), block(vec![("age", PropertyValue::range(0, 3))], 2)),
            (Identifier::from_location("gone"), block(vec![], 6)),
        ],
    );
    let target = ModernBlockList::new(
        None,
        vec![("color".to_string(), EnumProperty::new(strings(&["red", "green", "blue"])))],
        vec![
            (Identifier::from_location("one"), block(vec![("lit", PropertyValue::bool())], 0)),
            (Identifier::from_location("two"), block(vec![("age", PropertyValue::range(0, 7))], 2)),
        ],
    );

    let report = compare_lists(&base, &target);
    assert_eq!(report.property_results.len(), 1);
    assert_eq!(report.property_results[0].0, "color");
    assert_eq!(report.property_results[0].1, PropertyComparison::MissingEnd);
    assert_eq!(report.missing_properties, strings(&["shape"]));
    assert_eq!(report.block_results.len(), 2);
    assert_eq!(report.block_results[0].1, BlockComparison::Equal);
    assert_eq!(report.block_results[1].1, BlockComparison::DifferentRange);
    assert_eq!(report.missing_blocks.len(), 1);
    assert_eq!(report.missing_blocks[0].location(), "gone");
    assert_eq!(report.same_base, 2);
    assert_eq!(report.perfect, 1);
}
