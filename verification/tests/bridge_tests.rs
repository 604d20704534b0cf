use mcregion::nbt::Nbt;
use mcregion::region::WorldError;
use mcregion::world::Level;
use mcregion::world::Section;

fn sample_section(y: u8) -> Section {
    Section {
        y,
        block_light: vec![1i8; 2048],
        blocks: vec![7i8; 4096],
        data: vec![-2i8; 2048],
        sky_light: vec![15i8; 2048],
    }
}

fn sample_level() -> Level {
    Level {
        sections: vec![sample_section(0), sample_section(1)],
        block_entities: vec![
            Nbt::Compound(vec![(b"id".to_vec(), Nbt::Text(b"chest".to_vec()))]),
        ],
        inhabited_time: 1234567890123,
        last_update: -5,
        light_populated: true,
        terrain_populated: false,
        x: -17,
        z: 42,
        biomes: (0..256).map(|i| (i % 100) as i8).collect(),
        height_map: (0..256).map(|i| 64 + (i % 7) as i32).collect(),
    }
}

#[test]
fn bridge_round_trip_reproduces_every_field() {
    let level = sample_level();
    let tree = sample_level().to_tree();
    let (back, unmapped) = Level::from_value(tree).expect("serialized tree projects");
    assert!(unmapped.is_empty());
    assert_eq!(back, level);
}

#[test]
fn default_level_has_no_populated_fields() {
    let level = Level::default();
    assert!(level.sections.is_empty());
    assert!(level.block_entities.is_empty());
    assert_eq!(level.inhabited_time, 0);
    assert_eq!(level.last_update, 0);
    assert!(!level.light_populated);
    assert!(!level.terrain_populated);
    assert_eq!(level.x, 0);
    assert_eq!(level.z, 0);
    assert!(level.biomes.is_empty());
    assert!(level.height_map.is_empty());
}

#[test]
fn absent_keys_keep_the_typed_default() {
    let entries = vec![(b"xPos".to_vec(), Nbt::Int(3))];
    let (level, unmapped) = Level::from_hashmap(entries).expect("one known key");
    assert_eq!(level.x, 3);
    assert_eq!(level.z, 0);
    assert!(level.sections.is_empty());
    assert!(unmapped.is_empty());
}

#[test]
fn unknown_keys_are_collected_not_dropped() {
    let entries = vec![
        (b"xPos".to_vec(), Nbt::Int(3)),
        (b"Mystery".to_vec(), Nbt::Long(99)),
    ];
    let (level, unmapped) = Level::from_hashmap(entries).expect("projects");
    assert_eq!(level.x, 3);
    assert_eq!(unmapped, vec![(b"Mystery".to_vec(), Nbt::Long(99))]);
}

#[test]
fn either_entity_spelling_populates_block_entities() {
    let entity = Nbt::Compound(vec![(b"id".to_vec(), Nbt::Text(b"sign".to_vec()))]);
    for key in [b"TileEntities".to_vec(), b"BlockEntities".to_vec()] {
        let entity_copy = Nbt::Compound(vec![(b"id".to_vec(), Nbt::Text(b"sign".to_vec()))]);
        let entries = vec![(key, Nbt::List(vec![entity_copy]))];
        let (level, _) = Level::from_hashmap(entries).expect("projects");
        assert_eq!(level.block_entities.len(), 1);
        assert_eq!(level.block_entities[0], entity);
    }
}

#[test]
fn known_key_of_wrong_shape_is_a_malformed_tree() {
    let entries = vec![(b"InhabitedTime".to_vec(), Nbt::Text(b"soon".to_vec()))];
    assert_eq!(Level::from_hashmap(entries), Err(WorldError::MalformedTree));
    let bad_section = vec![(b"Sections".to_vec(), Nbt::List(vec![Nbt::Int(1)]))];
    assert_eq!(Level::from_hashmap(bad_section), Err(WorldError::MalformedTree));
    assert_eq!(
        Level::from_value(Nbt::Int(0)).unwrap_err(),
        WorldError::MalformedTree
    );
}

#[test]
fn boolean_flags_read_any_nonzero_byte_as_set() {
    let entries = vec![(b"LightPopulated".to_vec(), Nbt::Byte(2))];
    let (level, _) = Level::from_hashmap(entries).expect("projects");
    assert!(level.light_populated);
    let entries = vec![(b"LightPopulated".to_vec(), Nbt::Byte(0))];
    let (level, _) = Level::from_hashmap(entries).expect("projects");
    assert!(!level.light_populated);
}
