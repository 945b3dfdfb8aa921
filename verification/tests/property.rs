use blockdata::{EnumProperty, PropertyKind, PropertyKindParseError};

fn strings(values: &[&str]) -> Vec<String> {
    values.iter().map(|v| v.to_string()).collect()
}

#[test]
fn classify_boolean() {
    let kind = PropertyKind::classify(&strings(&["true", "false"])).unwrap();
    assert!(matches!(kind, PropertyKind::Bool));
}

#[test]
fn classify_boolean_too_long() {
    let err = PropertyKind::classify(&strings(&["true", "false", "maybe"])).unwrap_err();
    assert_eq!(err, PropertyKindParseError::BooleanTooLong);
}

#[test]
fn classify_boolean_invalid_type() {
    let err = PropertyKind::classify(&strings(&["true", "up"])).unwrap_err();
    assert_eq!(err, PropertyKindParseError::BooleanInvalidType);
}

#[test]
fn classify_integer_range() {
    let kind = PropertyKind::classify(&strings(&["0", "1", "2", "15"])).unwrap();
    match kind {
        PropertyKind::Int(lo, hi) => {
            assert_eq!(lo, 0);
            assert_eq!(hi, 15);
        }
        other => panic!("expected a range, got {:?}", other),
    }
}

#[test]
fn classify_single_value_range_is_degenerate() {
    let kind = PropertyKind::classify(&strings(&["5"])).unwrap();
    assert!(matches!(kind, PropertyKind::Int(5, 5)));
}

#[test]
fn classify_integer_range_error() {
    let err = PropertyKind::classify(&strings(&["1", "up"])).unwrap_err();
    assert_eq!(err, PropertyKindParseError::IntError);
}

#[test]
fn classify_enumeration_keeps_order() {
    let kind = PropertyKind::classify(&strings(&["north", "south", "east"])).unwrap();
    match kind {
        PropertyKind::Enum(e) => {
            assert_eq!(e.fields(), &strings(&["north", "south", "east"]));
        }
        other => panic!("expected an enumeration, got {:?}", other),
    }
}

#[test]
fn classify_overflowing_number_is_enumeration() {
    // 256 does not fit the small unsigned range, so the list is no range.
    let kind = PropertyKind::classify(&strings(&["256", "257"])).unwrap();
    assert!(matches!(kind, PropertyKind::Enum(_)));
}

#[test]
fn kind_len_and_is_empty() {
    assert_eq!(PropertyKind::Bool.len(), 2);
    assert_eq!(PropertyKind::Int(3, 7).len(), 5);
    let empty = PropertyKind::Enum(EnumProperty::new(Vec::new()));
    assert_eq!(empty.len(), 0);
    assert!(empty.is_empty());
    assert!(!PropertyKind::Bool.is_empty());
}

#[test]
fn enum_property_fields_round_trip() {
    let prop = EnumProperty::new(strings(&["value1", "value2"]));
    assert_eq!(prop.fields(), &strings(&["value1", "value2"]));
    let copy = prop.duplicate();
    assert!(copy.same_values(&prop));
    assert_eq!(prop.fields_owned(), strings(&["value1", "value2"]));
    let other = EnumProperty::new(strings(&["value2", "value1"]));
    assert!(!copy.same_values(&other));
}

#[test]
fn classify_accepts_a_leading_plus_sign() {
    let kind = PropertyKind::classify(&strings(&["+5", "7"])).unwrap();
    assert!(matches!(kind, PropertyKind::Int(5, 7)));
}

#[test]
fn classify_rejects_a_bare_plus_sign() {
    let kind = PropertyKind::classify(&strings(&["+", "7"])).unwrap();
    assert!(matches!(kind, PropertyKind::Enum(_)));
}
