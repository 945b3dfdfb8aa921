use blockdata::{
    Identifier, MetaData, ModernPropertyRules, PropertyValue, RawBlockData, RawBlockList,
    RawBlockState,
};
use blockdata::compact::build_intermediary;
use blockdata::EnumProperty;

fn strings(values: &[&str]) -> Vec<String> {
    values.iter().map(|v| v.to_string()).collect()
}

fn single_state_block() -> RawBlockData {
    RawBlockData::new(vec![], vec![RawBlockState::new(vec![], 7, false)])
}

fn switch_block(base: i32, default_last: bool) -> RawBlockData {
    let properties = vec![("powered".to_string(), strings(&["true", "false"]))];
    let states = vec![
        RawBlockState::new(
            vec![("powered".to_string(), "true".to_string())],
            base,
            false,
        ),
        RawBlockState::new(
            vec![("powered".to_string(), "false".to_string())],
            base + 1,
            default_last,
        ),
    ];
    RawBlockData::new(properties, states)
}

fn color_block(name: &str, base: i32) -> RawBlockData {
    let properties = vec![(name.to_string(), strings(&["red", "green", "blue"]))];
    let states = ["red", "green", "blue"]
        .iter()
        .enumerate()
        .map(|(i, v)| {
            RawBlockState::new(vec![(name.to_string(), v.to_string())], base + i as i32, false)
        })
        .collect();
    RawBlockData::new(properties, states)
}

#[test]
fn base_and_default_ids_survive_compaction() {
    let list = RawBlockList::new(vec![
        (Identifier::from_location("plain"), single_state_block()),
        (Identifier::from_location("switch"), switch_block(8, true)),
    ]);
    let out = build_intermediary(&list, None, None).unwrap();
    assert_eq!(out.blocks.len(), 2);
    assert_eq!(out.blocks[0].1.base_id(), 7);
    assert_eq!(out.blocks[0].1.default_id(), None);
    assert!(out.blocks[0].1.kinds.is_empty());
    assert_eq!(out.blocks[1].1.base_id(), 8);
    assert_eq!(out.blocks[1].1.default_id(), Some(9));
    assert_eq!(out.blocks[1].1.kinds[0].0, "powered");
    assert!(matches!(out.blocks[1].1.kinds[0].1, PropertyValue::Text(ref t) if t == "bool"));
}

#[test]
fn default_equal_to_base_is_absent() {
    let mut block = switch_block(8, false);
    block.states[0].default = true;
    let list = RawBlockList::new(vec![(Identifier::from_location("switch"), block)]);
    let out = build_intermediary(&list, None, None).unwrap();
    assert_eq!(out.blocks[0].1.base_id(), 8);
    assert_eq!(out.blocks[0].1.default_id(), None);
}

#[test]
fn global_table_deduplicates_identical_reuse() {
    let list = RawBlockList::new(vec![
        (Identifier::from_location("one"), color_block("color", 0)),
        (Identifier::from_location("two"), color_block("color", 3)),
    ]);
    let out = build_intermediary(&list, None, None).unwrap();
    assert_eq!(out.properties.len(), 1);
    assert_eq!(out.properties[0].0, "color");
    assert_eq!(out.properties[0].1.fields(), &strings(&["red", "green", "blue"]));
    assert!(matches!(out.blocks[0].1.kinds[0].1, PropertyValue::Text(ref t) if t == "color"));
    assert!(matches!(out.blocks[1].1.kinds[0].1, PropertyValue::Text(ref t) if t == "color"));
}

#[test]
fn type_always_surfaces_as_kind() {
    let list = RawBlockList::new(vec![(
        Identifier::from_location("one"),
        color_block("type", 0),
    )]);
    let out = build_intermediary(&list, None, None).unwrap();
    assert_eq!(out.properties[0].0, "kind");
    assert_eq!(out.blocks[0].1.kinds[0].0, "kind");
    assert!(matches!(out.blocks[0].1.kinds[0].1, PropertyValue::Text(ref t) if t == "kind"));
}

#[test]
fn type_surfaces_as_kind_under_rules_too() {
    // A rule that does not match the value set leaves the normalization alone.
    let rules = ModernPropertyRules::from_pairs(&vec![(
        "dye".to_string(),
        EnumProperty::new(strings(&["cyan", "magenta"])),
    )]);
    let list = RawBlockList::new(vec![(
        Identifier::from_location("one"),
        color_block("type", 0),
    )]);
    let out = build_intermediary(&list, Some(&rules), None).unwrap();
    assert_eq!(out.properties[0].0, "kind");
    assert_eq!(out.blocks[0].1.kinds[0].0, "kind");
}

#[test]
fn a_matching_rule_renames_the_table_entry() {
    let rules = ModernPropertyRules::from_pairs(&vec![(
        "palette".to_string(),
        EnumProperty::new(strings(&["red", "green", "blue"])),
    )]);
    let list = RawBlockList::new(vec![(
        Identifier::from_location("one"),
        color_block("type", 0),
    )]);
    let out = build_intermediary(&list, Some(&rules), None).unwrap();
    // The table and the reference carry the rule's canonical name; the
    // block's own property key keeps only the fixed normalization.
    assert_eq!(out.properties[0].0, "palette");
    assert_eq!(out.blocks[0].1.kinds[0].0, "kind");
    assert!(matches!(out.blocks[0].1.kinds[0].1, PropertyValue::Text(ref t) if t == "palette"));
}

#[test]
fn metadata_is_carried_through() {
    let list = RawBlockList::new(vec![(
        Identifier::from_location("plain"),
        single_state_block(),
    )]);
    let meta = MetaData::new(2730, Some("1.17.1".to_string()), None);
    let out = build_intermediary(&list, None, Some(meta)).unwrap();
    let meta = out.metadata.unwrap();
    assert_eq!(meta.id, 2730);
    assert_eq!(meta.name.as_deref(), Some("1.17.1"));
    assert_eq!(meta.note, None);
}

#[test]
fn integer_ranges_read_inline() {
    let properties = vec![("age".to_string(), strings(&["0", "1", "2"]))];
    let states = (0..3)
        .map(|i| {
            RawBlockState::new(
                vec![("age".to_string(), i.to_string())],
                i as i32,
                false,
            )
        })
        .collect();
    let block = RawBlockData::new(properties, states);
    let list = RawBlockList::new(vec![(Identifier::from_location("crop"), block)]);
    let out = build_intermediary(&list, None, None).unwrap();
    assert!(out.properties.is_empty());
    assert!(matches!(out.blocks[0].1.kinds[0].1, PropertyValue::Range(0, 2)));
}

#[test]
fn lookups_read_the_compact_file_back() {
    let list = RawBlockList::new(vec![
        (Identifier::from_location("one"), color_block("color", 0)),
        (Identifier::from_location("two"), switch_block(3, false)),
    ]);
    let out = build_intermediary(&list, None, None).unwrap();
    let found = out.find_property(&"color".to_string()).unwrap();
    assert_eq!(found.fields(), &strings(&["red", "green", "blue"]));
    assert!(out.find_property(&"tint".to_string()).is_none());
    let block = out.find_block(&Identifier::from_location("two")).unwrap();
    assert_eq!(block.base_id(), 3);
    assert!(out.find_block(&Identifier::from_location("three")).is_none());
}

#[test]
fn full_pipeline_scenario() {
    // Two blocks: a two-property block with a flagged default, and a block
    // reusing the same enumeration under a rule-resolved name.
    let lamp = RawBlockData::new(
        vec![
            ("type".to_string(), strings(&["soul", "ember"])),
            ("lit".to_string(), strings(&["true", "false"])),
        ],
        vec![
            RawBlockState::new(
                vec![("type".to_string(), "soul".to_string()), ("lit".to_string(), "true".to_string())],
                40,
                false,
            ),
            RawBlockState::new(
                vec![("type".to_string(), "soul".to_string()), ("lit".to_string(), "false".to_string())],
                41,
                true,
            ),
            RawBlockState::new(
                vec![("type".to_string(), "ember".to_string()), ("lit".to_string(), "true".to_string())],
                42,
                false,
            ),
            RawBlockState::new(
                vec![("type".to_string(), "ember".to_string()), ("lit".to_string(), "false".to_string())],
                43,
                false,
            ),
        ],
    );
    let torch = RawBlockData::new(
        vec![("flavor".to_string(), strings(&["soul", "ember"]))],
        vec![
            RawBlockState::new(vec![("flavor".to_string(), "soul".to_string())], 44, false),
            RawBlockState::new(vec![("flavor".to_string(), "ember".to_string())], 45, false),
        ],
    );
    let list = RawBlockList::new(vec![
        (Identifier::from_location("lamp"), lamp),
        (Identifier::from_full("mod", "torch"), torch),
    ]);
    let rules = ModernPropertyRules::from_pairs(&vec![(
        "fuel".to_string(),
        EnumProperty::new(strings(&["soul", "ember"])),
    )]);
    let meta = MetaData::new(100, None, Some("scenario".to_string()));

    let out = build_intermediary(&list, Some(&rules), Some(meta)).unwrap();

    // Both enumerations match the rule, so one table entry under "fuel".
    assert_eq!(out.properties.len(), 1);
    assert_eq!(out.properties[0].0, "fuel");
    assert_eq!(out.properties[0].1.fields(), &strings(&["soul", "ember"]));

    // The lamp block: "type" keys as "kind", referencing "fuel"; the flag on
    // state 41 survives because it differs from the base id.
    let lamp_out = &out.blocks[0].1;
    assert_eq!(out.blocks[0].0.location(), "lamp");
    assert_eq!(lamp_out.base_id(), 40);
    assert_eq!(lamp_out.default_id(), Some(41));
    assert_eq!(lamp_out.kinds[0].0, "kind");
    assert!(matches!(lamp_out.kinds[0].1, PropertyValue::Text(ref t) if t == "fuel"));
    assert_eq!(lamp_out.kinds[1].0, "lit");
    assert!(matches!(lamp_out.kinds[1].1, PropertyValue::Text(ref t) if t == "bool"));

    // The torch block references the same table entry.
    let torch_out = &out.blocks[1].1;
    assert_eq!(out.blocks[1].0.namespace(), "mod");
    assert_eq!(torch_out.base_id(), 44);
    assert_eq!(torch_out.default_id(), None);
    assert_eq!(torch_out.kinds[0].0, "flavor");
    assert!(matches!(torch_out.kinds[0].1, PropertyValue::Text(ref t) if t == "fuel"));

    assert_eq!(out.metadata.as_ref().unwrap().id, 100);
    assert_eq!(out.metadata.as_ref().unwrap().note.as_deref(), Some("scenario"));
}
