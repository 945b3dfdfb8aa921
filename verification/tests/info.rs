use blockdata::{EnumProperty, ModernBlockData, ModernBlockList, PropertyValue};
use blockdata::info::{coverage_gaps, scan_unknown_properties, sort_blocks_by_base};

fn data(base: i32, kinds: Vec<(&str, PropertyValue)>) -> ModernBlockData {
    ModernBlockData::new(
        kinds.into_iter().map(|(n, v)| (n.to_string(), v)).collect(),
        base,
        None,
    )
}

#[test]
fn blocks_sort_by_base_id() {
    let input = vec![data(9, vec![]), data(1, vec![]), data(4, vec![]), data(1, vec![])];
    let sorted = sort_blocks_by_base(input);
    let bases: Vec<i32> = sorted.iter().map(|b| b.base_id()).collect();
    assert_eq!(bases, vec![1, 1, 4, 9]);
}

#[test]
fn dangling_references_are_found() {
    let list = ModernBlockList::new(
        None,
        vec![("color".to_string(), EnumProperty::new(vec!["red".to_string()]))],
        vec![
            (
                blockdata::Identifier::from_location("one"),
                data(
                    0,
                    vec![
                        ("color", PropertyValue::enum_name("color")),
                        ("lit", PropertyValue::bool()),
                        ("age", PropertyValue::range(0, 3)),
                        ("shape", PropertyValue::enum_name("shape")),
                    ],
                ),
            ),
        ],
    );
    let unknown = scan_unknown_properties(&list);
    assert_eq!(unknown, vec!["shape".to_string()]);
}

#[test]
fn well_formed_file_has_no_dangling_references() {
    let list = ModernBlockList::new(
        None,
        vec![("color".to_string(), EnumProperty::new(vec!["red".to_string()]))],
        vec![(
            blockdata::Identifier::from_location("one"),
            data(0, vec![("color", PropertyValue::enum_name("color"))]),
        )],
    );
    assert!(scan_unknown_properties(&list).is_empty());
}

#[test]
fn coverage_gaps_reports_missing_id_ranges() {
    let list = ModernBlockList::new(
        None,
        vec![("color".to_string(), EnumProperty::new(vec!["red".to_string(), "green".to_string()]))],
        Vec::new(),
    );
    // Blocks covering ids 0..2 and 5..7: ids 2..5 are missing.
    let blocks = vec![
        data(0, vec![("color", PropertyValue::enum_name("color"))]),
        data(5, vec![("lit", PropertyValue::bool())]),
    ];
    let gaps = coverage_gaps(&blocks, &list).unwrap();
    assert_eq!(gaps, vec![(2, 5)]);
}

#[test]
fn full_coverage_has_no_gaps() {
    let list = ModernBlockList::new(None, Vec::new(), Vec::new());
    let blocks = vec![data(0, vec![("lit", PropertyValue::bool())]), data(2, vec![])];
    let gaps = coverage_gaps(&blocks, &list).unwrap();
    assert!(gaps.is_empty());
}
