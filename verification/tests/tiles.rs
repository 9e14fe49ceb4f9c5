use dmmt::canvas::Canvas;
use dmmt::tiles::{extract_tile, level_size, tile_count, zoom_level};

#[test]
fn level_sizes() {
    assert_eq!(level_size(1536, 1024, 0), (1536, 1024));
    assert_eq!(level_size(1536, 1024, 3), (192, 128));
    assert_eq!(level_size(5, 3, 3), (1, 1));
    assert_eq!(level_size(u32::MAX, 7, 31), (1, 1));
}

#[test]
fn tile_counts_match_float_ceiling() {
    for side in 0u32..200_000 {
        assert_eq!(tile_count(side), (side as f32 / 256.0).ceil() as u32, "side {}", side);
    }
    assert_eq!(tile_count(u32::MAX), 16_777_216);
}

#[test]
fn tile_counts_round_sides_above_float_precision() {
    assert_eq!(tile_count(16_777_216), 65_536);
    assert_eq!(tile_count(16_777_217), 65_536);
    assert_eq!(tile_count(16_777_218), 65_537);
    assert_eq!(tile_count(33_554_433), 131_072);
    let mut side: u32 = 16_777_000;
    while side < 16_800_000 {
        assert_eq!(tile_count(side), (side as f32 / 256.0).ceil() as u32, "side {}", side);
        side += 1;
    }
    let mut side: u64 = 0x1_0000_0000 - 70_000;
    while side <= u32::MAX as u64 {
        let s = side as u32;
        assert_eq!(tile_count(s), (s as f32 / 256.0).ceil() as u32, "side {}", s);
        side += 1;
    }
}

fn gradient(w: u32, h: u32) -> Canvas {
    let mut c = Canvas::filled(w, h, [30, 30, 30]);
    for y in 0..h {
        for x in 0..w {
            c.put_pixel(x, y, [(x % 251) as u8, (y % 251) as u8, ((x + y) % 7) as u8]);
        }
    }
    c
}

#[test]
fn level_zero_is_the_map() {
    let c = gradient(10, 6);
    let l = zoom_level(&c, 0);
    assert_eq!((l.width, l.height), (10, 6));
    assert_eq!(l.pixels, c.pixels);
}

#[test]
fn lower_levels_are_nearest_resized() {
    let c = gradient(300, 200);
    let l = zoom_level(&c, 1);
    assert_eq!((l.width, l.height), (150, 100));
    let img: image::RgbImage = image::ImageBuffer::from_raw(300, 200, c.pixels.clone()).unwrap();
    let expected = image::imageops::resize(&img, 150, 100, image::imageops::FilterType::Nearest).into_raw();
    assert_eq!(l.pixels, expected);
    assert_ne!(l.pixels.len(), c.pixels.len());
}

#[test]
fn empty_tile_is_skipped() {
    let c = Canvas::filled(600, 300, [30, 30, 30]);
    assert!(extract_tile(&c, 0, 0).is_none());
    assert!(extract_tile(&c, 2, 1).is_none());
}

#[test]
fn tile_copies_pixels_and_pads_with_background() {
    let mut c = Canvas::filled(300, 260, [30, 30, 30]);
    c.put_pixel(299, 259, [1, 2, 3]);
    c.put_pixel(256, 256, [4, 5, 6]);
    assert!(extract_tile(&c, 0, 0).is_none());
    let t = extract_tile(&c, 1, 1).unwrap();
    assert_eq!((t.width, t.height, t.pixels.len()), (256, 256, 196608));
    assert_eq!(t.get_pixel(43, 3), [1, 2, 3]);
    assert_eq!(t.get_pixel(0, 0), [4, 5, 6]);
    assert_eq!(t.get_pixel(44, 3), [30, 30, 30]);
    assert_eq!(t.get_pixel(255, 255), [30, 30, 30]);
}

#[test]
fn every_level_pixel_is_in_its_tile() {
    let c = gradient(300, 260);
    for &(gx, gz) in [(0u32, 0u32), (255, 255), (256, 0), (299, 259), (123, 257)].iter() {
        let (tx, tz) = (gx / 256, gz / 256);
        assert!(tx < tile_count(c.width) && tz < tile_count(c.height));
        let t = extract_tile(&c, tx, tz).unwrap();
        assert_eq!(t.get_pixel(gx % 256, gz % 256), c.get_pixel(gx, gz));
    }
}
