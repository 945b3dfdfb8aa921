use blockdata::{
    BuildError, CompactError, Identifier, ModernPropertyRules, PropertyKindParseError,
    RawBlockData, RawBlockList, RawBlockState,
};
use blockdata::collisions::detect_collisions;
use blockdata::compact::build_intermediary;
use blockdata::EnumProperty;

fn strings(values: &[&str]) -> Vec<String> {
    values.iter().map(|v| v.to_string()).collect()
}

fn enum_block(name: &str, values: &[&str], base: i32) -> RawBlockData {
    let properties = vec![(name.to_string(), strings(values))];
    let states = values
        .iter()
        .enumerate()
        .map(|(i, v)| {
            RawBlockState::new(vec![(name.to_string(), v.to_string())], base + i as i32, false)
        })
        .collect();
    RawBlockData::new(properties, states)
}

fn listing(blocks: Vec<(&str, RawBlockData)>) -> RawBlockList {
    RawBlockList::new(
        blocks.into_iter().map(|(n, b)| (Identifier::from_location(n), b)).collect(),
    )
}

#[test]
fn name_collision_is_fatal_and_yields_no_output() {
    let list = listing(vec![
        ("one", enum_block("color", &["red", "green"], 0)),
        ("two", enum_block("color", &["cyan", "magenta"], 2)),
    ]);
    let collisions = detect_collisions(&list, None).unwrap();
    assert!(collisions.should_exit());
    assert_eq!(collisions.by_name.len(), 1);
    assert_eq!(collisions.by_name[0].0, "color");
    assert_eq!(collisions.by_name[0].1.len(), 2);
    assert!(collisions.by_values.is_empty());

    let err = build_intermediary(&list, None, None).unwrap_err();
    assert_eq!(err, BuildError::Invalid(CompactError::NameCollision));
}

#[test]
fn value_collision_is_only_a_warning() {
    let list = listing(vec![
        ("one", enum_block("color", &["red", "green"], 0)),
        ("two", enum_block("tint", &["red", "green"], 2)),
    ]);
    let collisions = detect_collisions(&list, None).unwrap();
    assert!(!collisions.should_exit());
    assert!(collisions.by_name.is_empty());
    assert_eq!(collisions.by_values.len(), 1);
    assert_eq!(collisions.by_values[0].1, strings(&["color", "tint"]));

    // The run completes: both names are stored in the global table.
    let out = build_intermediary(&list, None, None).unwrap();
    assert_eq!(out.properties.len(), 2);
    assert_eq!(out.properties[0].0, "color");
    assert_eq!(out.properties[1].0, "tint");
}

#[test]
fn identical_reuse_is_no_collision() {
    let list = listing(vec![
        ("one", enum_block("color", &["red", "green"], 0)),
        ("two", enum_block("color", &["red", "green"], 2)),
    ]);
    let collisions = detect_collisions(&list, None).unwrap();
    assert!(!collisions.should_exit());
    assert!(collisions.by_name.is_empty());
    assert!(collisions.by_values.is_empty());
}

#[test]
fn a_rule_resolves_a_name_collision() {
    let list = listing(vec![
        ("one", enum_block("color", &["red", "green"], 0)),
        ("two", enum_block("color", &["cyan", "magenta"], 2)),
    ]);
    let rules = ModernPropertyRules::from_pairs(&vec![(
        "dye".to_string(),
        EnumProperty::new(strings(&["cyan", "magenta"])),
    )]);
    let collisions = detect_collisions(&list, Some(&rules)).unwrap();
    assert!(!collisions.should_exit());
    let out = build_intermediary(&list, Some(&rules), None).unwrap();
    assert_eq!(out.properties[0].0, "color");
    assert_eq!(out.properties[1].0, "dye");
}

#[test]
fn malformed_boolean_fails_the_scan() {
    let block = RawBlockData::new(
        vec![("broken".to_string(), strings(&["true", "sideways"]))],
        vec![RawBlockState::new(
            vec![("broken".to_string(), "true".to_string())],
            0,
            false,
        )],
    );
    let list = listing(vec![("one", block)]);
    let err = detect_collisions(&list, None).unwrap_err();
    assert_eq!(err, PropertyKindParseError::BooleanInvalidType);
    let err = build_intermediary(&list, None, None).unwrap_err();
    assert_eq!(err, BuildError::Malformed(PropertyKindParseError::BooleanInvalidType));
}
