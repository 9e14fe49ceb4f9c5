use dmmt::block_to_rgb::{is_air, is_water, BlockColors, MissingBlocks};
use dmmt::{block_to_rgb, parse_block_name, Block};

#[test]
fn block_colors_by_kind() {
    assert_eq!(block_to_rgb(Block::Air), [0, 0, 0]);
    assert_eq!(block_to_rgb(Block::Water), [64, 64, 255]);
    assert_eq!(block_to_rgb(Block::BubbleColumn), [64, 64, 255]);
    assert_eq!(block_to_rgb(Block::Color([1, 2, 3])), [1, 2, 3]);
}

#[test]
fn air_and_water_predicates() {
    assert!(is_air(Block::Air));
    assert!(!is_air(Block::Water));
    assert!(is_water(Block::Water));
    assert!(is_water(Block::BubbleColumn));
    assert!(!is_water(Block::Color([64, 64, 255])));
}

#[test]
fn color_table_from_json() {
    let colors = BlockColors::from_json(r#"{"minecraft:stone": [125, 125, 125], "minecraft:grass_block": [90, 140, 60]}"#);
    assert_eq!(colors.len(), 2);
    assert_eq!(colors.lookup("minecraft:stone"), Some([125, 125, 125]));
    assert_eq!(colors.lookup("minecraft:grass_block"), Some([90, 140, 60]));
    assert_eq!(colors.lookup("minecraft:dirt"), None);
}

#[test]
fn color_table_later_duplicate_wins() {
    let colors = BlockColors::from_json(r#"{"a": [1, 1, 1], "a": [2, 2, 2]}"#);
    assert_eq!(colors.len(), 1);
    assert_eq!(colors.lookup("a"), Some([2, 2, 2]));
}

#[test]
fn color_table_invalid_json_is_empty() {
    assert_eq!(BlockColors::from_json("not json").len(), 0);
    assert_eq!(BlockColors::from_json("{}").len(), 0);
    assert_eq!(BlockColors::from_json(r#"{"a": [1, 2]}"#).len(), 0);
    assert_eq!(BlockColors::from_json(r#"{"a": [1, 2, 300]}"#).len(), 0);
    assert_eq!(BlockColors::new().lookup("a"), None);
}

#[test]
fn names_of_air_and_water() {
    let colors = BlockColors::from_json(r#"{"minecraft:air": [9, 9, 9], "minecraft:water": [9, 9, 9]}"#);
    let mut missing = MissingBlocks::new();
    assert_eq!(parse_block_name("minecraft:air", &colors, &mut missing), (Block::Air, false));
    assert_eq!(parse_block_name("minecraft:cave_air", &colors, &mut missing), (Block::Air, false));
    assert_eq!(parse_block_name("minecraft:void_air", &colors, &mut missing), (Block::Air, false));
    assert_eq!(parse_block_name("minecraft:water", &colors, &mut missing), (Block::Water, false));
    assert_eq!(parse_block_name("minecraft:bubble_column", &colors, &mut missing), (Block::BubbleColumn, false));
    assert!(!missing.contains("minecraft:air"));
}

#[test]
fn mapped_name_uses_table_colour() {
    let colors = BlockColors::from_json(r#"{"minecraft:stone": [125, 125, 125]}"#);
    let mut missing = MissingBlocks::new();
    assert_eq!(parse_block_name("minecraft:stone", &colors, &mut missing), (Block::Color([125, 125, 125]), false));
    assert!(!missing.contains("minecraft:stone"));
}

#[test]
fn unmapped_name_is_magenta_and_reported_once() {
    let colors = BlockColors::from_json("{}");
    let mut missing = MissingBlocks::new();
    assert_eq!(parse_block_name("minecraft:mystery", &colors, &mut missing), (Block::Color([255, 0, 255]), true));
    assert!(missing.contains("minecraft:mystery"));
    assert_eq!(parse_block_name("minecraft:mystery", &colors, &mut missing), (Block::Color([255, 0, 255]), false));
    assert_eq!(parse_block_name("minecraft:other", &colors, &mut missing), (Block::Color([255, 0, 255]), true));
}

#[test]
fn missing_set_insert() {
    let mut missing = MissingBlocks::new();
    assert!(missing.insert("x"));
    assert!(!missing.insert("x"));
    assert!(missing.insert("y"));
    assert!(missing.contains("x") && missing.contains("y") && !missing.contains("z"));
}

#[test]
fn table_from_entries_keeps_the_last_colour_of_a_name() {
    let colors = BlockColors::from_entries(vec![
        ("minecraft:stone".to_string(), [125, 125, 125]),
        ("minecraft:sand".to_string(), [220, 210, 160]),
        ("minecraft:stone".to_string(), [100, 100, 100]),
    ]);
    assert_eq!(colors.len(), 3);
    assert_eq!(colors.lookup("minecraft:stone"), Some([100, 100, 100]));
    assert_eq!(colors.lookup("minecraft:sand"), Some([220, 210, 160]));
    assert_eq!(colors.lookup("minecraft:dirt"), None);
}

#[test]
fn each_missing_name_reported_at_its_first_occurrence_only() {
    let colors = BlockColors::from_json(r#"{"minecraft:stone": [125, 125, 125]}"#);
    let mut missing = MissingBlocks::new();
    missing.insert("minecraft:old");
    let names = [
        "minecraft:a", "minecraft:stone", "minecraft:b", "minecraft:a", "minecraft:air",
        "minecraft:old", "minecraft:b", "minecraft:c", "minecraft:a",
    ];
    let flags: Vec<bool> = names.iter().map(|n| parse_block_name(n, &colors, &mut missing).1).collect();
    assert_eq!(flags, vec![true, false, true, false, false, false, false, true, false]);
}
