use vstd::prelude::*;
use vstd::arithmetic::power2::{pow2, lemma_pow2_pos};
use vstd::bits::{lemma_u32_shl_is_mul, lemma_u32_pow2_no_overflow};
use crate::canvas::{Canvas, grid_index, lemma_grid_index};

verus! {

/// Size of one side of a zoom level `zoom_out` steps below full size: the
/// full size halved `zoom_out` times (rounding down), but at least 1.
pub open spec fn level_side(side: int, zoom_out: nat) -> int {
    let s = side / (pow2(zoom_out) as int);
    if s < 1 { 1 } else { s }
}

/// Width and height of the image of zoom level `zoom_out` of a
/// `width` x `height` map.
pub fn level_size(width: u32, height: u32, zoom_out: u32) -> (size: (u32, u32))
    requires
        zoom_out < 32,
    ensures
        size.0 == level_side(width as int, zoom_out as nat),
        size.1 == level_side(height as int, zoom_out as nat),
{
    proof {
        lemma_u32_pow2_no_overflow(zoom_out as nat);
        lemma_u32_shl_is_mul(1, zoom_out);
    }
    let scale: u32 = 1u32 << zoom_out;
    let w = width / scale;
    let h = height / scale;
    (if w < 1 { 1 } else { w }, if h < 1 { 1 } else { h })
}

/// The pixels that nearest-neighbour resizing (the image crate's
/// `imageops::resize` with `FilterType::Nearest`) makes of an RGB image.
pub uninterp spec fn nearest_resize(pixels: Seq<u8>, width: u32, height: u32, new_width: u32, new_height: u32) -> Seq<u8>;

/// Calls `image::imageops::resize` with the nearest filter on a `width` x
/// `height` RGB image, shrinking it. Claimed: the pixels returned are
/// `nearest_resize` of the arguments, `new_width` x `new_height` of them.
/// The call first samples the columns into a `width` x `new_height` image of
/// four `f32` channels, which panics when its 16 bytes per pixel do not fit
/// in `isize`; `requires` leaves those inputs out.
#[verifier::external_body]
fn resize_nearest(pixels: &Vec<u8>, width: u32, height: u32, new_width: u32, new_height: u32) -> (out: Vec<u8>)
    requires
        pixels@.len() == width * height * 3,
        new_width <= width,
        new_height <= height,
        width * new_height * 16 <= isize::MAX,
    ensures
        out@ == nearest_resize(pixels@, width, height, new_width, new_height),
        out@.len() == new_width * new_height * 3,
{
    let img: image::RgbImage = image::ImageBuffer::from_raw(width, height, pixels.clone()).unwrap();
    image::imageops::resize(&img, new_width, new_height, image::imageops::FilterType::Nearest).into_raw()
}

fn copy_bytes(v: &Vec<u8>) -> (copy: Vec<u8>)
    ensures
        copy@ == v@,
{
    let mut copy: Vec<u8> = Vec::with_capacity(v.len());
    let mut i: usize = 0;
    while i < v.len()
        invariant
            i <= v@.len(),
            copy@ == v@.take(i as int),
        decreases v@.len() - i,
    {
        copy.push(v[i]);
        i = i + 1;
        assert(copy@ =~= v@.take(i as int));
    }
    assert(v@.take(i as int) =~= v@);
    copy
}

proof fn lemma_level_side_bound(side: int, zoom_out: nat)
    requires
        side >= 0,
    ensures
        1 <= level_side(side, zoom_out),
        side >= 1 ==> level_side(side, zoom_out) <= side,
{
    lemma_pow2_pos(zoom_out);
    assert(side / (pow2(zoom_out) as int) <= side) by (nonlinear_arith)
        requires
            side >= 0,
            pow2(zoom_out) >= 1,
    ;
}

/// The image of zoom level `zoom_out` of a map: the map itself at level 0,
/// and the map resized (nearest neighbour) to the level's size below that.
/// Resizing samples the map's columns into an image of the map's width and
/// the level's height with 16 bytes a pixel, which has to fit in `isize`.
pub fn zoom_level(img: &Canvas, zoom_out: u32) -> (level: Canvas)
    requires
        img.wf(),
        img.width >= 1,
        img.height >= 1,
        zoom_out < 32,
        zoom_out > 0 ==> img.width * level_side(img.height as int, zoom_out as nat) * 16 <= isize::MAX,
    ensures
        level.wf(),
        level.width == level_side(img.width as int, zoom_out as nat),
        level.height == level_side(img.height as int, zoom_out as nat),
        zoom_out == 0 ==> level.pixels@ == img.pixels@,
        zoom_out > 0 ==> level.pixels@ == nearest_resize(img.pixels@, img.width, img.height, level.width, level.height),
{
    let (w, h) = level_size(img.width, img.height, zoom_out);
    proof {
        lemma_level_side_bound(img.width as int, zoom_out as nat);
        lemma_level_side_bound(img.height as int, zoom_out as nat);
        assert(w * h * 3 <= img.width * img.height * 3) by (nonlinear_arith)
            requires
                1 <= w <= img.width,
                1 <= h <= img.height,
        ;
    }
    if zoom_out == 0 {
        proof {
            vstd::arithmetic::power2::lemma2_to64();
        }
        Canvas { width: w, height: h, pixels: copy_bytes(&img.pixels) }
    } else {
        Canvas { width: w, height: h, pixels: resize_nearest(&img.pixels, img.width, img.height, w, h) }
    }
}

/// Spacing of the values a 32-bit float holds near `n`: 1 below 2^24, and
/// doubling with every further bit of `n`.
pub open spec fn f32_spacing(n: nat) -> nat
    decreases n,
{
    if n < 0x100_0000 {
        1
    } else {
        2 * f32_spacing(n / 2)
    }
}

/// `n as f32` for an integer `n`: the nearest value with 24 significant bits,
/// ties going to the one with an even last bit.
pub open spec fn f32_round(n: nat) -> nat {
    let u = f32_spacing(n);
    let q = n / u;
    let r = n % u;
    if 2 * r < u || (2 * r == u && q % 2 == 0) {
        q * u
    } else {
        (q + 1) * u
    }
}

/// Number of 256-pixel tiles along a side of `side` pixels, as the 32-bit
/// float ceiling `(side as f32 / 256.0).ceil()`: `side` is first rounded to
/// a float, then divided (exactly) and rounded up.
pub fn tile_count(side: u32) -> (n: u32)
    ensures
        n == (f32_round(side as nat) + 255) / 256,
        side < 0x100_0000 ==> n == (side as int + 255) / 256,
{
    let mut u: u64 = 1;
    let mut m: u64 = side as u64;
    while m >= 0x100_0000
        invariant
            1 <= u <= 512,
            u > 1 ==> side >= 0x100_0000,
            m == (side as nat) / (u as nat),
            f32_spacing(side as nat) == u * f32_spacing(m as nat),
        decreases m,
    {
        proof {
            assert(f32_spacing(m as nat) == 2 * f32_spacing((m / 2) as nat));
            assert((side as nat) / (2 * u as nat) == ((side as nat) / (u as nat)) / 2) by (nonlinear_arith)
                requires
                    u >= 1,
            ;
            assert(u * f32_spacing(m as nat) == (2 * u) * f32_spacing((m / 2) as nat)) by (nonlinear_arith)
                requires
                    f32_spacing(m as nat) == 2 * f32_spacing((m / 2) as nat),
            ;
            assert(u * 0x100_0000 <= side) by (nonlinear_arith)
                requires
                    m == (side as nat) / (u as nat),
                    m >= 0x100_0000,
                    u >= 1,
            ;
        }
        m = m / 2;
        u = u * 2;
    }
    assert(f32_spacing(m as nat) == 1);
    assert(f32_spacing(side as nat) == u as nat) by (nonlinear_arith)
        requires
            f32_spacing(side as nat) == u * f32_spacing(m as nat),
            f32_spacing(m as nat) == 1,
    ;
    let q = m;
    assert(q * u <= side) by (nonlinear_arith)
        requires
            q == (side as nat) / (u as nat),
            u >= 1,
    ;
    let qu: u64 = q * u;
    let r: u64 = (side as u64) - qu;
    proof {
        assert((side as nat) % (u as nat) == r) by (nonlinear_arith)
            requires
                q == (side as nat) / (u as nat),
                r == side - q * u,
                u >= 1,
        ;
        assert((q + 1) * u == q * u + u) by (nonlinear_arith);
    }
    let rounded: u64 = if 2 * r < u || (2 * r == u && q % 2 == 0) {
        qu
    } else {
        qu + u
    };
    assert(f32_round(side as nat) == rounded as nat);
    proof {
        if side < 0x100_0000 {
            assert(u == 1);
            assert(q == side);
            assert(r == 0);
        }
    }
    ((rounded + 255) / 256) as u32
}

/// Pixel (x, z) of the tile at (tx, tz) of `level` shows the level's pixel
/// under it, or the background where the tile reaches past the level.
pub open spec fn tile_shows(tile: Canvas, level: Canvas, tx: int, tz: int, x: int, z: int) -> bool {
    let gx = tx * 256 + x;
    let gz = tz * 256 + z;
    if gx < level.width && gz < level.height {
        tile.same_pixel(x, z, &level, gx, gz)
    } else {
        tile.background_at(x, z)
    }
}

/// Every pixel of `level` under the tile at (tx, tz) is background.
pub open spec fn tile_is_empty(level: Canvas, tx: int, tz: int) -> bool {
    forall|x: int, z: int|
        0 <= x < 256 && 0 <= z < 256 && tx * 256 + x < level.width && tz * 256 + z < level.height
            ==> #[trigger] level.background_at(tx * 256 + x, tz * 256 + z)
}

/// Bytes `3 * j .. 3 * j + 3` of a tile being cut from `level` at (tx, tz)
/// hold tile pixel `j` (x = j % 256, z = j / 256).
pub open spec fn tile_byte_ok(pixels: Seq<u8>, level: Canvas, tx: int, tz: int, j: int) -> bool {
    let gx = tx * 256 + j % 256;
    let gz = tz * 256 + j / 256;
    let i = 3 * grid_index(level.width as int, gx, gz);
    if gx < level.width && gz < level.height {
        pixels[3 * j] == level.pixels@[i] && pixels[3 * j + 1] == level.pixels@[i + 1]
            && pixels[3 * j + 2] == level.pixels@[i + 2]
    } else {
        pixels[3 * j] == 30 && pixels[3 * j + 1] == 30 && pixels[3 * j + 2] == 30
    }
}

/// Tile pixel `j` of the tile at (tx, tz) lies on `level` and is not background.
pub open spec fn drawn_under_tile(level: Canvas, tx: int, tz: int, j: int) -> bool {
    let gx = tx * 256 + j % 256;
    let gz = tz * 256 + j / 256;
    gx < level.width && gz < level.height && !level.background_at(gx, gz)
}

/// Cuts the 256x256 tile at (tx, tz) out of a zoom level; `None` when every
/// pixel of the level under it is background, so there is nothing to draw.
pub fn extract_tile(level: &Canvas, tx: u32, tz: u32) -> (tile: Option<Canvas>)
    requires
        level.wf(),
        tx * 256 < level.width,
        tz * 256 < level.height,
    ensures
        tile is None <==> tile_is_empty(*level, tx as int, tz as int),
        tile matches Some(t) ==> {
            &&& t.wf()
            &&& t.width == 256
            &&& t.height == 256
            &&& forall|x: int, z: int| 0 <= x < 256 && 0 <= z < 256 ==> #[trigger] tile_shows(t, *level, tx as int, tz as int, x, z)
        },
{
    let ghost lw = level.width as int;
    let ghost lh = level.height as int;
    let mut pixels: Vec<u8> = Vec::with_capacity(196608);
    let mut nonempty = false;
    let mut k: u32 = 0;
    while k < 65536
        invariant
            level.wf(),
            lw == level.width,
            lh == level.height,
            tx * 256 < level.width,
            tz * 256 < level.height,
            k <= 65536,
            pixels@.len() == 3 * k,
            forall|j: int| 0 <= j < k ==> #[trigger] tile_byte_ok(pixels@, *level, tx as int, tz as int, j),
            nonempty <==> exists|j: int| 0 <= j < k && #[trigger] drawn_under_tile(*level, tx as int, tz as int, j),
        decreases 65536 - k,
    {
        let x = k % 256;
        let z = k / 256;
        let gx = tx * 256 + x;
        let gz = tz * 256 + z;
        let ghost before = pixels@;
        if gx < level.width && gz < level.height {
            let p = level.get_pixel(gx, gz);
            pixels.push(p[0]);
            pixels.push(p[1]);
            pixels.push(p[2]);
            if p[0] != 30 || p[1] != 30 || p[2] != 30 {
                nonempty = true;
            }
        } else {
            pixels.push(30);
            pixels.push(30);
            pixels.push(30);
        }
        proof {
            assert(x == k % 256 && z == k / 256);
            assert forall|j: int| 0 <= j < k + 1 implies #[trigger] tile_byte_ok(pixels@, *level, tx as int, tz as int, j) by {
                if j < k {
                    assert(tile_byte_ok(before, *level, tx as int, tz as int, j));
                    assert(pixels@[3 * j] == before[3 * j] && pixels@[3 * j + 1] == before[3 * j + 1]
                        && pixels@[3 * j + 2] == before[3 * j + 2]);
                }
            }
            if drawn_under_tile(*level, tx as int, tz as int, k as int) {
                assert(nonempty);
            }
            if nonempty {
                if !(exists|j: int| 0 <= j < k && #[trigger] drawn_under_tile(*level, tx as int, tz as int, j)) {
                    assert(drawn_under_tile(*level, tx as int, tz as int, k as int));
                }
            }
        }
        k = k + 1;
    }
    if !nonempty {
        proof {
            assert forall|x: int, z: int|
                0 <= x < 256 && 0 <= z < 256 && tx * 256 + x < level.width && tz * 256 + z < level.height
                    implies #[trigger] level.background_at(tx * 256 + x, tz * 256 + z) by {
                let j = z * 256 + x;
                assert(j % 256 == x && j / 256 == z);
                assert(!drawn_under_tile(*level, tx as int, tz as int, j));
            }
        }
        return None;
    }
    let t = Canvas { width: 256, height: 256, pixels };
    proof {
        assert forall|x: int, z: int| 0 <= x < 256 && 0 <= z < 256 implies #[trigger] tile_shows(t, *level, tx as int, tz as int, x, z) by {
            let j = z * 256 + x;
            assert(j % 256 == x && j / 256 == z);
            assert(grid_index(256, x, z) == j);
            assert(tile_byte_ok(pixels@, *level, tx as int, tz as int, j));
        }
        let j = choose|j: int| 0 <= j < 65536 && #[trigger] drawn_under_tile(*level, tx as int, tz as int, j);
        assert(!tile_is_empty(*level, tx as int, tz as int)) by {
            let x = j % 256;
            let z = j / 256;
            assert(!level.background_at(tx * 256 + x, tz * 256 + z));
        }
    }
    Some(t)
}

/// Each pixel of a zoom level lies in exactly one tile: the tile
/// (x / 256, y / 256), which is one of the `tile_count` tiles of its side, at
/// position (x % 256, y % 256) within the tile.
pub proof fn lemma_pixel_in_one_tile(side: int, x: int, t: int)
    requires
        0 <= x < side,
    ensures
        0 <= x / 256 < (side + 255) / 256,
        x == (x / 256) * 256 + x % 256,
        0 <= x % 256 < 256,
        t * 256 <= x < t * 256 + 256 ==> t == x / 256,
{
    if t * 256 <= x < t * 256 + 256 {
        if t < x / 256 {
            assert(t * 256 + 256 <= (x / 256) * 256) by (nonlinear_arith)
                requires
                    t < x / 256,
            ;
        } else if t > x / 256 {
            assert((x / 256) * 256 + 256 <= t * 256) by (nonlinear_arith)
                requires
                    t > x / 256,
            ;
        }
    }
}

} // verus!
