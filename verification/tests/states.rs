use blockdata::{CompactError, RawBlockData, RawBlockState};

fn strings(values: &[&str]) -> Vec<String> {
    values.iter().map(|v| v.to_string()).collect()
}

fn assigns(pairs: &[(&str, &str)]) -> Vec<(String, String)> {
    pairs.iter().map(|(n, v)| (n.to_string(), v.to_string())).collect()
}

/// A block with property sizes 2 and 3, numbered odometer-style from 10:
/// the later-declared property is the fastest-varying digit.
fn two_by_three(base: i32) -> RawBlockData {
    let properties = vec![
        ("a".to_string(), strings(&["x", "y"])),
        ("b".to_string(), strings(&["p", "q", "r"])),
    ];
    let mut states = Vec::new();
    let mut id = base;
    for av in ["x", "y"] {
        for bv in ["p", "q", "r"] {
            states.push(RawBlockState::new(assigns(&[("a", av), ("b", bv)]), id, false));
            id += 1;
        }
    }
    RawBlockData::new(properties, states)
}

#[test]
fn recomputed_ids_match_declared_ids() {
    let block = two_by_three(10);
    assert_eq!(block.property_count(), 2);
    assert_eq!(block.state_count(), Some(6));
    let (base, default) = blockdata::states::verify_block(&block).unwrap();
    assert_eq!(base, 10);
    assert_eq!(default, None);
}

#[test]
fn corrupting_one_id_is_fatal() {
    let mut block = two_by_three(10);
    block.states[4].id = 99;
    let err = blockdata::states::verify_block(&block).unwrap_err();
    assert_eq!(err, CompactError::IdMismatch);
}

#[test]
fn six_states_are_required_for_sizes_two_and_three() {
    let mut block = two_by_three(10);
    block.states.pop();
    let err = blockdata::states::verify_block(&block).unwrap_err();
    assert_eq!(err, CompactError::StateCountMismatch);
}

#[test]
fn a_block_needs_at_least_one_state() {
    let block = RawBlockData::new(Vec::new(), Vec::new());
    let err = blockdata::states::verify_block(&block).unwrap_err();
    assert_eq!(err, CompactError::StateCountMismatch);
}

#[test]
fn unknown_property_value_is_fatal() {
    let mut block = two_by_three(10);
    block.states[2].properties[1].1 = "violet".to_string();
    let err = blockdata::states::verify_block(&block).unwrap_err();
    assert_eq!(err, CompactError::UnknownPropertyValue);
}

#[test]
fn state_with_wrong_property_names_is_fatal() {
    let mut block = two_by_three(10);
    // Same assignment count, but the declared property "b" is not assigned.
    block.states[0].properties = assigns(&[("a", "x"), ("c", "p")]);
    let err = blockdata::states::verify_block(&block).unwrap_err();
    assert_eq!(err, CompactError::PropertyCountMismatch);
}

#[test]
fn state_with_too_few_properties_is_fatal() {
    let mut block = two_by_three(10);
    block.states[0].properties = assigns(&[("a", "x")]);
    let err = blockdata::states::verify_block(&block).unwrap_err();
    assert_eq!(err, CompactError::PropertyCountMismatch);
}

#[test]
fn flagged_default_is_extracted() {
    let mut block = two_by_three(20);
    block.states[3].default = true;
    let (base, default) = blockdata::states::verify_block(&block).unwrap();
    assert_eq!(base, 20);
    assert_eq!(default, Some(23));
}

#[test]
fn default_equal_to_base_is_dropped() {
    let mut block = two_by_three(20);
    block.states[0].default = true;
    let (base, default) = blockdata::states::verify_block(&block).unwrap();
    assert_eq!(base, 20);
    assert_eq!(default, None);
}

#[test]
fn state_order_follows_declared_order() {
    // A state may list its assignments in any order: the digits follow the
    // block's declared property order, not the state's.
    let properties = vec![
        ("a".to_string(), strings(&["x", "y"])),
        ("b".to_string(), strings(&["p", "q"])),
    ];
    let states = vec![
        RawBlockState::new(assigns(&[("b", "p"), ("a", "x")]), 0, false),
        RawBlockState::new(assigns(&[("b", "q"), ("a", "x")]), 1, false),
        RawBlockState::new(assigns(&[("b", "p"), ("a", "y")]), 2, false),
        RawBlockState::new(assigns(&[("b", "q"), ("a", "y")]), 3, false),
    ];
    let block = RawBlockData::new(properties, states);
    let (base, _) = blockdata::states::verify_block(&block).unwrap();
    assert_eq!(base, 0);
}

#[test]
fn three_property_ids_follow_the_digit_weights() {
    // Weights: first property 2*2 = 4, second 2, third 1.
    let properties = vec![
        ("a".to_string(), strings(&["x", "y", "z"])),
        ("b".to_string(), strings(&["p", "q"])),
        ("c".to_string(), strings(&["true", "false"])),
    ];
    let mut states = Vec::new();
    let mut id = 100;
    for av in ["x", "y", "z"] {
        for bv in ["p", "q"] {
            for cv in ["true", "false"] {
                states.push(RawBlockState::new(
                    assigns(&[("a", av), ("b", bv), ("c", cv)]),
                    id,
                    false,
                ));
                id += 1;
            }
        }
    }
    let block = RawBlockData::new(properties, states);
    assert_eq!(block.state_count(), Some(12));
    let (base, _) = blockdata::states::verify_block(&block).unwrap();
    assert_eq!(base, 100);
    // Swapping two ids breaks the scheme.
    let mut broken = two_by_three(0);
    let id0 = broken.states[0].id;
    broken.states[0].id = broken.states[1].id;
    broken.states[1].id = id0;
    assert!(blockdata::states::verify_block(&broken).is_err());
}

#[test]
fn the_last_flagged_default_wins() {
    let mut block = two_by_three(0);
    block.states[1].default = true;
    block.states[4].default = true;
    let (_, default) = blockdata::states::verify_block(&block).unwrap();
    assert_eq!(default, Some(4));
}

#[test]
fn zero_sized_property_forces_zero_states() {
    let properties = vec![("a".to_string(), Vec::new())];
    let block = RawBlockData::new(properties, Vec::new());
    assert_eq!(block.state_count(), Some(0));
    // Even the zero-state count is rejected: a block needs a first state.
    let err = blockdata::states::verify_block(&block).unwrap_err();
    assert_eq!(err, CompactError::StateCountMismatch);
}
