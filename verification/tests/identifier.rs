use blockdata::Identifier;

#[test]
fn test_identifier_de() {
    let identifier = Identifier::parse("test1").unwrap();
    assert_eq!(identifier.namespace(), "minecraft");
    assert_eq!(identifier.location(), "test1");

    let identifier = Identifier::parse("test_2:other/value").unwrap();
    assert_eq!(identifier.namespace(), "test_2");
    assert_eq!(identifier.location(), "other/value");
}

#[test]
fn test_identifier_de_error() {
    let err = Identifier::parse("test/2:other").unwrap_err();
    assert_eq!(err, 6);
}

#[test]
fn identifier_constructors_and_matching() {
    let a = Identifier::from_full("minecraft", "stone");
    let b = Identifier::from_location("stone");
    assert!(a.matches(&b));
    let c = Identifier::from_full("other", "stone");
    assert!(!a.matches(&c));
    assert_eq!(c.namespace(), "other");
    assert_eq!(c.location(), "stone");
}

#[test]
fn identifier_rejects_uppercase() {
    // The uppercase letter ends the location run after three characters.
    let err = Identifier::parse("stoNe").unwrap_err();
    assert_eq!(err, 3);
}
