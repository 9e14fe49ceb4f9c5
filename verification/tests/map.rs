use dmmt::chunk::ChunkColumns;
use dmmt::map::{depth_to_water_color, map_dimensions, region_bounds, DimensionMap, HeightShade, ProcessedChunk, RegionBounds};

/// The water colour computed in single-precision floating point.
fn float_water_color(depth: i16) -> [u8; 3] {
    let band_size = 3;
    let banded_depth = ((depth - 1) / band_size) * band_size + 1;
    let d = banded_depth.clamp(1, 30) as f32;
    let t = (d - 1.0) / 29.0;
    let r = (90.0 - t * 80.0) as u8;
    let g = (200.0 - t * 160.0) as u8;
    let b = (245.0 - t * 135.0) as u8;
    [r, g, b]
}

#[test]
fn water_color_matches_float_formula_for_every_depth() {
    for depth in (i16::MIN + 1)..=i16::MAX {
        assert_eq!(depth_to_water_color(depth), float_water_color(depth), "depth {}", depth);
    }
}

#[test]
fn water_color_ends_and_bands() {
    assert_eq!(depth_to_water_color(1), [90, 200, 245]);
    assert_eq!(depth_to_water_color(31), [10, 40, 110]);
    assert_eq!(depth_to_water_color(1000), [10, 40, 110]);
    assert_eq!(depth_to_water_color(2), depth_to_water_color(3));
    assert_ne!(depth_to_water_color(3), depth_to_water_color(4));
    assert_eq!(depth_to_water_color(-5), depth_to_water_color(1));
}

#[test]
fn bounds_of_regions() {
    assert!(region_bounds(&vec![]).is_none());
    let b = region_bounds(&vec![(0, 0), (-2, 5), (3, -1)]).unwrap();
    assert_eq!((b.min_rx, b.max_rx, b.min_rz, b.max_rz), (-2, 3, -1, 5));
    assert_eq!(map_dimensions(&b), Some((3072, 3584)));
    let huge = RegionBounds { min_rx: i32::MIN, max_rx: i32::MAX, min_rz: 0, max_rz: 0 };
    assert_eq!(map_dimensions(&huge), None);
}

fn columns(height: i16, depth: i16, color: [u8; 3]) -> ChunkColumns {
    ChunkColumns { colors: vec![color; 256], heights: vec![height; 256], depths: vec![depth; 256] }
}

#[test]
fn chunk_lands_on_its_place() {
    let mut m = DimensionMap::new(-1, 0, 1024, 512);
    let mut cols = columns(70, 0, [1, 2, 3]);
    cols.heights[17] = 71; // x = 1, z = 1
    let chunk = ProcessedChunk { reg_x: 0, reg_z: 0, cx: 2, cz: 3, columns: cols };
    m.place_chunk(&chunk);
    let ox = 512 + 32;
    let oz = 48;
    let idx = |x: usize, z: usize| z * 1024 + x;
    assert_eq!(m.world_y[idx(ox, oz)], 70);
    assert_eq!(m.world_y[idx(ox + 1, oz + 1)], 71);
    assert!(m.valid[idx(ox + 15, oz + 15)]);
    assert!(!m.valid[idx(ox + 16, oz)]);
    assert!(!m.valid[idx(ox - 1, oz)]);
    assert_eq!(m.world_y[idx(ox + 16, oz)], -64);
    assert_eq!(m.colors.get_pixel(ox as u32, oz as u32), [1, 2, 3]);
    assert_eq!(m.colors.get_pixel(ox as u32 + 16, oz as u32), [30, 30, 30]);
}

#[test]
fn land_range_and_shades() {
    let mut m = DimensionMap::new(0, 0, 512, 512);
    let r = m.land_range();
    assert_eq!((r.min_y, r.max_y, r.max_diff), (-64, 320, 384));
    m.place_chunk(&ProcessedChunk { reg_x: 0, reg_z: 0, cx: 0, cz: 0, columns: columns(60, 0, [5, 5, 5]) });
    m.place_chunk(&ProcessedChunk { reg_x: 0, reg_z: 0, cx: 1, cz: 0, columns: columns(100, 0, [5, 5, 5]) });
    m.place_chunk(&ProcessedChunk { reg_x: 0, reg_z: 0, cx: 2, cz: 0, columns: columns(62, 4, [64, 64, 255]) });
    let r = m.land_range();
    assert_eq!((r.min_y, r.max_y, r.max_diff), (60, 100, 40));
    let shades = m.height_shades(r);
    assert_eq!(shades.len(), 512 * 512);
    assert_eq!(shades[0], HeightShade::Land(0, 40));
    assert_eq!(shades[16], HeightShade::Land(40, 40));
    assert_eq!(shades[32], HeightShade::Water(4));
    assert_eq!(shades[48], HeightShade::Background);
}

#[test]
fn flat_land_has_span_one() {
    let mut m = DimensionMap::new(0, 0, 512, 512);
    m.place_chunk(&ProcessedChunk { reg_x: 0, reg_z: 0, cx: 0, cz: 0, columns: columns(64, 0, [5, 5, 5]) });
    let r = m.land_range();
    assert_eq!((r.min_y, r.max_y, r.max_diff), (64, 64, 1));
    assert_eq!(m.height_shades(r)[0], HeightShade::Land(0, 1));
}

#[test]
fn deeper_water_is_never_lighter() {
    for d in 1..200i16 {
        let a = depth_to_water_color(d);
        let b = depth_to_water_color(d + 1);
        assert!(b[0] <= a[0] && b[1] <= a[1] && b[2] <= a[2], "depth {}", d);
    }
}

#[test]
fn later_chunk_wins_a_shared_place() {
    let mut m = DimensionMap::new(0, 0, 512, 512);
    let chunks = vec![
        ProcessedChunk { reg_x: 0, reg_z: 0, cx: 0, cz: 0, columns: columns(60, 0, [5, 5, 5]) },
        ProcessedChunk { reg_x: 0, reg_z: 0, cx: 1, cz: 0, columns: columns(80, 0, [6, 6, 6]) },
        ProcessedChunk { reg_x: 0, reg_z: 0, cx: 0, cz: 0, columns: columns(70, 2, [7, 7, 7]) },
    ];
    m.place_chunks(&chunks);
    assert_eq!(m.world_y[0], 70);
    assert_eq!(m.water_depth[0], 2);
    assert_eq!(m.colors.get_pixel(0, 0), [7, 7, 7]);
    assert_eq!(m.world_y[16], 80);
    assert_eq!(m.colors.get_pixel(16, 0), [6, 6, 6]);
    assert!(!m.valid[32]);
    assert_eq!(m.colors.get_pixel(32, 0), [30, 30, 30]);
}

#[test]
fn placement_order_does_not_matter_for_separate_places() {
    let make = |cx: usize, cz: usize, h: i16, c: u8| ProcessedChunk {
        reg_x: 0,
        reg_z: 0,
        cx,
        cz,
        columns: columns(h, (h % 3) as i16, [c, c, c]),
    };
    let a = vec![make(0, 0, 60, 1), make(3, 1, 70, 2), make(31, 31, 80, 3), make(5, 9, 90, 4)];
    let b = vec![make(5, 9, 90, 4), make(31, 31, 80, 3), make(0, 0, 60, 1), make(3, 1, 70, 2)];
    let mut m1 = DimensionMap::new(0, 0, 512, 512);
    let mut m2 = DimensionMap::new(0, 0, 512, 512);
    m1.place_chunks(&a);
    m2.place_chunks(&b);
    assert_eq!(m1.world_y, m2.world_y);
    assert_eq!(m1.water_depth, m2.water_depth);
    assert_eq!(m1.valid, m2.valid);
    assert_eq!(m1.colors.pixels, m2.colors.pixels);
}
