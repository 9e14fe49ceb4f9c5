use dmmt::block_to_rgb::{BlockColors, MissingBlocks};
use dmmt::chunk::{chunk_columns, process_chunk, resolve_section, scan_column, section_order, RawBlockStates, RawSection, WaterTooDeep};
use dmmt::section::Section;
use dmmt::Block;

fn c(n: u8) -> Block {
    Block::Color([n, n, n])
}

fn raw(y: i8, names: &[&str], data: Option<Vec<i64>>) -> RawSection {
    RawSection {
        y,
        block_states: Some(RawBlockStates { palette: names.iter().map(|s| s.to_string()).collect(), data }),
    }
}

/// A section whose layer `y` (0..16) holds palette index `layers[y]` everywhere.
fn layered(y: i8, palette: Vec<Block>, layers: [u64; 16]) -> Section {
    let mut data = vec![0u64; 256];
    for i in 0..4096usize {
        let layer = i / 256;
        data[i / 16] |= layers[layer] << ((i % 16) * 4);
    }
    Section { y, palette, data: Some(data.into_iter().map(|w| w as i64).collect()) }
}

#[test]
fn sections_ordered_top_down_stably() {
    let raws = vec![raw(0, &[], None), raw(3, &[], None), raw(-1, &[], None), raw(3, &[], None), raw(0, &[], None)];
    assert_eq!(section_order(&raws), vec![1, 3, 0, 4, 2]);
    assert_eq!(section_order(&vec![]), Vec::<usize>::new());
}

#[test]
fn top_block_of_plain_column() {
    // palette: 0 air, 1 stone; layers 0..=4 stone, the rest air
    let mut layers = [0u64; 16];
    for l in 0..5 {
        layers[l] = 1;
    }
    let secs = vec![layered(2, vec![Block::Air, c(100)], layers)];
    let top = scan_column(&secs, 3, 4, false).unwrap().unwrap();
    assert_eq!(top.y, 2 * 16 + 4);
    assert_eq!(top.color, [100, 100, 100]);
    assert_eq!(top.water_depth, 0);
}

#[test]
fn all_air_column_has_no_top() {
    let secs = vec![layered(0, vec![Block::Air], [0; 16]), Section { y: -1, palette: vec![], data: None }];
    assert_eq!(scan_column(&secs, 0, 0, false).unwrap().is_none(), true);
}

#[test]
fn water_depth_counts_water_through_sections() {
    // upper section: layers 14, 15 water, rest air; lower section: 15 bubble column, 14 air, 13 water, 12 sand
    let mut up = [0u64; 16];
    up[14] = 1;
    up[15] = 1;
    let mut low = [0u64; 16];
    low[15] = 2;
    low[13] = 1;
    low[12] = 3;
    let palette = vec![Block::Air, Block::Water, Block::BubbleColumn, c(200)];
    let secs = vec![layered(5, palette.clone(), up), layered(4, palette, low)];
    let top = scan_column(&secs, 0, 0, false).unwrap().unwrap();
    assert_eq!(top.y, 5 * 16 + 15);
    assert_eq!(top.color, [64, 64, 255]);
    assert_eq!(top.water_depth, 4);
}

#[test]
fn water_to_the_bottom_counts_all_water() {
    let mut layers = [0u64; 16];
    layers[0] = 1;
    layers[1] = 1;
    let secs = vec![layered(0, vec![Block::Air, Block::Water], layers)];
    let top = scan_column(&secs, 5, 5, false).unwrap().unwrap();
    assert_eq!((top.y, top.water_depth), (1, 2));
}

#[test]
fn nether_ignores_blocks_above_85() {
    // section y = 5 covers 80..=95: stone at 90 (layer 10) and at 84 (layer 4)
    let mut layers = [0u64; 16];
    layers[10] = 1;
    layers[4] = 1;
    let secs = vec![layered(5, vec![Block::Air, c(50)], layers)];
    assert_eq!(scan_column(&secs, 0, 0, false).unwrap().unwrap().y, 90);
    assert_eq!(scan_column(&secs, 0, 0, true).unwrap().unwrap().y, 84);
    // exactly 85 still counts
    let mut at85 = [0u64; 16];
    at85[5] = 1;
    let secs = vec![layered(5, vec![Block::Air, c(50)], at85)];
    assert_eq!(scan_column(&secs, 0, 0, true).unwrap().unwrap().y, 85);
}

#[test]
fn columns_default_to_background() {
    let cols = chunk_columns(&vec![], false).unwrap();
    assert_eq!(cols.colors.len(), 256);
    assert!(cols.colors.iter().all(|c| *c == [30, 30, 30]));
    assert!(cols.heights.iter().all(|h| *h == -64));
    assert!(cols.depths.iter().all(|d| *d == 0));
}

#[test]
fn resolve_records_missing_names() {
    let colors = BlockColors::from_json(r#"{"minecraft:stone": [1, 2, 3]}"#);
    let mut missing = MissingBlocks::new();
    let mut new_names = Vec::new();
    let r = raw(2, &["minecraft:air", "minecraft:stone", "x:odd", "x:odd", "minecraft:water"], Some(vec![1, 2]));
    let sec = resolve_section(&r, &colors, &mut missing, &mut new_names);
    assert_eq!(sec.y, 2);
    assert_eq!(sec.palette, vec![Block::Air, Block::Color([1, 2, 3]), Block::Color([255, 0, 255]), Block::Color([255, 0, 255]), Block::Water]);
    assert_eq!(sec.data, Some(vec![1, 2]));
    assert_eq!(new_names, vec!["x:odd".to_string()]);
    let no_states = RawSection { y: 1, block_states: None };
    let sec = resolve_section(&no_states, &colors, &mut missing, &mut new_names);
    assert!(sec.palette.is_empty() && sec.data.is_none());
}

#[test]
fn process_chunk_reads_every_column() {
    let colors = BlockColors::from_json(r#"{"minecraft:stone": [120, 120, 120], "minecraft:grass_block": [80, 160, 60]}"#);
    let mut missing = MissingBlocks::new();
    // lower section (y=0): layer 0 stone everywhere; upper section (y=1): grass on layer 3 at x == 0 only
    let lower_layers = {
        let mut d = vec![0u64; 256];
        for i in 0..256usize {
            d[i / 16] |= 1u64 << ((i % 16) * 4);
        }
        d.into_iter().map(|w| w as i64).collect::<Vec<i64>>()
    };
    let upper = {
        let mut d = vec![0u64; 256];
        for z in 0..16usize {
            let i = 3 * 256 + z * 16;
            d[i / 16] |= 1u64 << ((i % 16) * 4);
        }
        d.into_iter().map(|w| w as i64).collect::<Vec<i64>>()
    };
    let raws = vec![
        raw(0, &["minecraft:air", "minecraft:stone"], Some(lower_layers)),
        raw(1, &["minecraft:air", "minecraft:grass_block", "mod:thing"], Some(upper)),
    ];
    let (cols, new_names) = process_chunk(&raws, &colors, &mut missing, false);
    let cols = cols.unwrap();
    assert_eq!(new_names, vec!["mod:thing".to_string()]);
    for z in 0..16 {
        for x in 0..16 {
            let i = z * 16 + x;
            if x == 0 {
                assert_eq!((cols.colors[i], cols.heights[i], cols.depths[i]), ([80, 160, 60], 19, 0));
            } else {
                assert_eq!((cols.colors[i], cols.heights[i], cols.depths[i]), ([120, 120, 120], 0, 0));
            }
        }
    }
    let (_, again) = process_chunk(&raws, &colors, &mut missing, false);
    assert!(again.is_empty());
}

#[test]
fn water_deeper_than_i16_fails() {
    let water = |y: i8| Section { y, palette: vec![Block::Water], data: None };
    let mut secs: Vec<Section> = (0..2047).map(|k| water((k % 100) as i8)).collect();
    let mut layers = [1u64; 16];
    layers[0] = 2;
    secs.push(layered(-100, vec![Block::Air, Block::Water, c(9)], layers));
    let top = scan_column(&secs, 0, 0, false).unwrap().unwrap();
    assert_eq!(top.water_depth, i16::MAX);
    let mut deeper: Vec<Section> = (0..2048).map(|k| water((k % 100) as i8)).collect();
    assert_eq!(scan_column(&deeper, 0, 0, false).err(), Some(WaterTooDeep));
    deeper.push(layered(-100, vec![Block::Air, c(9)], [1u64; 16]));
    assert_eq!(scan_column(&deeper, 7, 7, false).err(), Some(WaterTooDeep));
    assert_eq!(chunk_columns(&deeper, false).err(), Some(WaterTooDeep));
}

#[test]
fn process_chunk_too_deep_still_records_names() {
    let colors = BlockColors::from_json("{}");
    let mut missing = MissingBlocks::new();
    let mut raws: Vec<RawSection> = (0..2048).map(|k| raw((k % 100) as i8, &["minecraft:water"], None)).collect();
    raws.push(raw(-128, &["odd:block"], None));
    let (cols, new_names) = process_chunk(&raws, &colors, &mut missing, false);
    assert_eq!(cols.err(), Some(WaterTooDeep));
    assert_eq!(new_names, vec!["odd:block".to_string()]);
}

#[test]
fn nether_chunk_reads_as_its_ceiling_cleared() {
    // section 5 covers y = 80..=95: water in layers 0..=3, stone above; section 4 sand
    let mut layers = [1u64; 16];
    for l in 0..4 {
        layers[l] = 2;
    }
    let palette = vec![Block::Air, c(100), Block::Water];
    let secs = vec![layered(5, palette.clone(), layers), layered(4, vec![c(7)], [0; 16])];
    let mut cleared = layers;
    for l in 6..16 {
        cleared[l] = 0;
    }
    let open = vec![layered(5, palette, cleared), layered(4, vec![c(7)], [0; 16])];
    let nether = chunk_columns(&secs, true).unwrap();
    let plain = chunk_columns(&open, false).unwrap();
    assert_eq!(nether.colors, plain.colors);
    assert_eq!(nether.heights, plain.heights);
    assert_eq!(nether.depths, plain.depths);
    assert_eq!(nether.heights[0], 85);
    assert_eq!(nether.colors[0], [100, 100, 100]);
    let overworld = chunk_columns(&secs, false).unwrap();
    assert_eq!(overworld.heights[0], 95);
}

#[test]
fn new_missing_names_come_in_the_order_they_are_met() {
    let colors = BlockColors::from_json(r#"{"minecraft:stone": [125, 125, 125]}"#);
    let mut missing = MissingBlocks::new();
    missing.insert("x:known");
    // read top down: section 2 first, then 1, then 0
    let raws = vec![
        raw(0, &["x:c", "x:a"], None),
        raw(2, &["minecraft:air", "x:b", "x:known", "x:a"], Some(vec![0; 256])),
        raw(1, &["x:b", "minecraft:stone", "x:d"], Some(vec![0; 256])),
    ];
    let (_, new_names) = process_chunk(&raws, &colors, &mut missing, false);
    assert_eq!(new_names, vec!["x:b".to_string(), "x:a".to_string(), "x:d".to_string(), "x:c".to_string()]);
}
