use vstd::prelude::*;
use crate::canvas::{Canvas, grid_index, lemma_grid_index};
use crate::chunk::ChunkColumns;

verus! {

/// The smallest and largest region coordinates of a dimension.
pub struct RegionBounds {
    pub min_rx: i32,
    pub max_rx: i32,
    pub min_rz: i32,
    pub max_rz: i32,
}

/// `b` is the bounding box of the region coordinates `coords`: each bound is
/// attained by some region and no region lies outside.
pub open spec fn bounds_of(b: RegionBounds, coords: Seq<(i32, i32)>) -> bool {
    &&& forall|i: int| 0 <= i < coords.len() ==> b.min_rx <= (#[trigger] coords[i]).0 <= b.max_rx
        && b.min_rz <= coords[i].1 <= b.max_rz
    &&& exists|i: int| 0 <= i < coords.len() && (#[trigger] coords[i]).0 == b.min_rx
    &&& exists|i: int| 0 <= i < coords.len() && (#[trigger] coords[i]).0 == b.max_rx
    &&& exists|i: int| 0 <= i < coords.len() && (#[trigger] coords[i]).1 == b.min_rz
    &&& exists|i: int| 0 <= i < coords.len() && (#[trigger] coords[i]).1 == b.max_rz
}

/// The bounding box of the regions of a dimension; `None` when it has none.
pub fn region_bounds(coords: &Vec<(i32, i32)>) -> (bounds: Option<RegionBounds>)
    ensures
        bounds is None <==> coords@.len() == 0,
        bounds matches Some(b) ==> bounds_of(b, coords@),
{
    if coords.len() == 0 {
        return None;
    }
    let mut b = RegionBounds { min_rx: coords[0].0, max_rx: coords[0].0, min_rz: coords[0].1, max_rz: coords[0].1 };
    let mut i: usize = 1;
    assert(coords@.take(1)[0] == coords@[0]);
    while i < coords.len()
        invariant
            1 <= i <= coords@.len(),
            bounds_of(b, coords@.take(i as int)),
        decreases coords@.len() - i,
    {
        let (x, z) = coords[i];
        let ghost prev = b;
        if x < b.min_rx {
            b.min_rx = x;
        }
        if x > b.max_rx {
            b.max_rx = x;
        }
        if z < b.min_rz {
            b.min_rz = z;
        }
        if z > b.max_rz {
            b.max_rz = z;
        }
        proof {
            let s0 = coords@.take(i as int);
            let s1 = coords@.take(i + 1);
            assert(s1[i as int] == (x, z));
            assert forall|j: int| 0 <= j < i implies #[trigger] s1[j] == s0[j] by {}
            let w1 = choose|j: int| 0 <= j < s0.len() && (#[trigger] s0[j]).0 == prev.min_rx;
            let w2 = choose|j: int| 0 <= j < s0.len() && (#[trigger] s0[j]).0 == prev.max_rx;
            let w3 = choose|j: int| 0 <= j < s0.len() && (#[trigger] s0[j]).1 == prev.min_rz;
            let w4 = choose|j: int| 0 <= j < s0.len() && (#[trigger] s0[j]).1 == prev.max_rz;
            assert(s1[w1] == s0[w1] && s1[w2] == s0[w2] && s1[w3] == s0[w3] && s1[w4] == s0[w4]);
            assert forall|j: int| 0 <= j < s1.len() implies b.min_rx <= (#[trigger] s1[j]).0 <= b.max_rx
                && b.min_rz <= s1[j].1 <= b.max_rz by {
                if j < i {
                    assert(s1[j] == s0[j]);
                }
            }
        }
        i = i + 1;
    }
    assert(coords@.take(i as int) =~= coords@);
    Some(b)
}

/// Width and height in pixels of the map of a bounding box: 512 pixels (one
/// region) per region coordinate.
pub open spec fn map_width(b: RegionBounds) -> int {
    (b.max_rx - b.min_rx + 1) * 512
}

pub open spec fn map_height(b: RegionBounds) -> int {
    (b.max_rz - b.min_rz + 1) * 512
}

/// The pixel size of the map of a bounding box; `None` when a side exceeds
/// `u32` or the RGB buffer would exceed the largest allocation (`isize::MAX` bytes).
pub fn map_dimensions(b: &RegionBounds) -> (dims: Option<(u32, u32)>)
    requires
        b.min_rx <= b.max_rx,
        b.min_rz <= b.max_rz,
    ensures
        match dims {
            Some((w, h)) => w == map_width(*b) && h == map_height(*b) && w * h * 3 <= isize::MAX,
            None => map_width(*b) > u32::MAX || map_height(*b) > u32::MAX
                || map_width(*b) * map_height(*b) * 3 > isize::MAX,
        },
{
    let w: i64 = ((b.max_rx as i64) - (b.min_rx as i64) + 1) * 512;
    let h: i64 = ((b.max_rz as i64) - (b.min_rz as i64) + 1) * 512;
    if w > 0xffff_ffff || h > 0xffff_ffff {
        return None;
    }
    assert((w as u128) * (h as u128) * 3 <= 0xffff_ffff_ffff_ffff_ffff_ffff_ffff_ffffu128) by (nonlinear_arith)
        requires
            0 <= w <= 0xffff_ffff,
            0 <= h <= 0xffff_ffff,
    ;
    let total: u128 = (w as u128) * (h as u128) * 3;
    if total > isize::MAX as u128 {
        return None;
    }
    Some((w as u32, h as u32))
}

/// The assembled map of a dimension: top colours, heights, water depths and
/// which pixels any chunk covered, one entry per pixel in row-major order.
pub struct DimensionMap {
    pub min_rx: i32,
    pub min_rz: i32,
    pub width: u32,
    pub height: u32,
    pub colors: Canvas,
    pub world_y: Vec<i16>,
    pub water_depth: Vec<i16>,
    pub valid: Vec<bool>,
}

/// A chunk ready to be placed on the map: region, position in the region and columns.
pub struct ProcessedChunk {
    pub reg_x: i32,
    pub reg_z: i32,
    pub cx: usize,
    pub cz: usize,
    pub columns: ChunkColumns,
}

impl DimensionMap {
    /// Every grid has one entry per pixel, heights lie in the world's range
    /// and water depths are not negative.
    pub open spec fn wf(&self) -> bool {
        &&& self.colors.wf()
        &&& self.colors.width == self.width
        &&& self.colors.height == self.height
        &&& self.world_y@.len() == self.width * self.height
        &&& self.water_depth@.len() == self.width * self.height
        &&& self.valid@.len() == self.width * self.height
        &&& forall|i: int| 0 <= i < self.world_y@.len() ==> -2048 <= #[trigger] self.world_y@[i] <= 2047
        &&& forall|i: int| 0 <= i < self.water_depth@.len() ==> #[trigger] self.water_depth@[i] >= 0
    }

    /// An empty map: background colour `[30, 30, 30]`, height -64, no water,
    /// no pixel covered.
    pub fn new(min_rx: i32, min_rz: i32, width: u32, height: u32) -> (m: DimensionMap)
        requires
            width * height * 3 <= isize::MAX,
        ensures
            m.wf(),
            m.min_rx == min_rx,
            m.min_rz == min_rz,
            m.width == width,
            m.height == height,
            forall|x: int, y: int| 0 <= x < width && 0 <= y < height ==> #[trigger] m.colors.background_at(x, y),
            forall|i: int| 0 <= i < width * height ==> #[trigger] m.world_y@[i] == -64 && m.water_depth@[i] == 0 && !m.valid@[i],
    {
        let n: usize = (width as usize) * (height as usize);
        let colors = Canvas::filled(width, height, [30, 30, 30]);
        let world_y: Vec<i16> = vec![-64i16; n];
        let water_depth: Vec<i16> = vec![0i16; n];
        let valid: Vec<bool> = vec![false; n];
        DimensionMap { min_rx, min_rz, width, height, colors, world_y, water_depth, valid }
    }

    /// Left and top pixel of a chunk on this map.
    pub open spec fn chunk_origin_x(&self, c: ProcessedChunk) -> int {
        (c.reg_x - self.min_rx) * 512 + c.cx * 16
    }

    pub open spec fn chunk_origin_z(&self, c: ProcessedChunk) -> int {
        (c.reg_z - self.min_rz) * 512 + c.cz * 16
    }

    /// A chunk whose region lies within the map and whose columns are in range.
    pub open spec fn fits(&self, c: ProcessedChunk) -> bool {
        &&& c.reg_x >= self.min_rx
        &&& c.reg_z >= self.min_rz
        &&& (c.reg_x - self.min_rx) * 512 + 512 <= self.width
        &&& (c.reg_z - self.min_rz) * 512 + 512 <= self.height
        &&& c.cx < 32
        &&& c.cz < 32
        &&& c.columns.in_range()
    }

    /// Pixel (gx, gz) of `self` shows cell `k` of chunk `c`.
    pub open spec fn shows_cell(&self, gx: int, gz: int, c: ProcessedChunk, k: int) -> bool {
        let i = grid_index(self.width as int, gx, gz);
        &&& self.world_y@[i] == c.columns.heights@[k]
        &&& self.water_depth@[i] == c.columns.depths@[k]
        &&& self.valid@[i]
        &&& self.colors.pixel_is(gx, gz, c.columns.colors@[k])
    }

    /// Pixel (gx, gz) is the same in `self` and `other`.
    pub open spec fn same_cell(&self, gx: int, gz: int, other: DimensionMap) -> bool {
        let i = grid_index(self.width as int, gx, gz);
        &&& self.world_y@[i] == other.world_y@[i]
        &&& self.water_depth@[i] == other.water_depth@[i]
        &&& self.valid@[i] == other.valid@[i]
        &&& self.colors.same_pixel(gx, gz, &other.colors, gx, gz)
    }

    /// Pixel (gx, gz) after the first `done` cells of chunk `c` were placed on `before`.
    pub open spec fn placed(&self, before: DimensionMap, c: ProcessedChunk, gx: int, gz: int, done: int) -> bool {
        let lx = gx - before.chunk_origin_x(c);
        let lz = gz - before.chunk_origin_z(c);
        if 0 <= lx < 16 && 0 <= lz < 16 && lz * 16 + lx < done {
            self.shows_cell(gx, gz, c, lz * 16 + lx)
        } else {
            self.same_cell(gx, gz, before)
        }
    }

    /// Copies the 16x16 columns of a chunk onto its place on the map; every
    /// other pixel keeps what it held.
    pub fn place_chunk(&mut self, c: &ProcessedChunk)
        requires
            old(self).wf(),
            old(self).fits(*c),
        ensures
            final(self).wf(),
            final(self).min_rx == old(self).min_rx,
            final(self).min_rz == old(self).min_rz,
            final(self).width == old(self).width,
            final(self).height == old(self).height,
            forall|gx: int, gz: int| 0 <= gx < old(self).width && 0 <= gz < old(self).height
                ==> #[trigger] final(self).placed(*old(self), *c, gx, gz, 256),
    {
        let ghost before = *self;
        let ox: usize = ((c.reg_x as i64 - self.min_rx as i64) as usize) * 512 + c.cx * 16;
        let oz: usize = ((c.reg_z as i64 - self.min_rz as i64) as usize) * 512 + c.cz * 16;
        assert(ox == before.chunk_origin_x(*c) && oz == before.chunk_origin_z(*c));
        let w = self.width as usize;
        let mut k: usize = 0;
        while k < 256
            invariant
                before.wf(),
                before.fits(*c),
                self.wf(),
                self.min_rx == before.min_rx,
                self.min_rz == before.min_rz,
                self.width == before.width,
                self.height == before.height,
                w == self.width,
                ox == before.chunk_origin_x(*c),
                oz == before.chunk_origin_z(*c),
                ox + 16 <= self.width,
                oz + 16 <= self.height,
                k <= 256,
                forall|gx: int, gz: int| 0 <= gx < before.width && 0 <= gz < before.height
                    ==> #[trigger] self.placed(before, *c, gx, gz, k as int),
            decreases 256 - k,
        {
            let x = k % 16;
            let z = k / 16;
            let gx = ox + x;
            let gz = oz + z;
            proof {
                lemma_grid_index(w as int, self.height as int, gx as int, gz as int, gx as int, gz as int);
            }
            let n = self.world_y.len();
            assert(gz * w <= gz * w + gx < n) by (nonlinear_arith)
                requires
                    gz * w + gx == grid_index(w as int, gx as int, gz as int),
                    0 <= grid_index(w as int, gx as int, gz as int) < w * self.height,
                    n == w * self.height,
                    gx >= 0,
            ;
            let idx = gz * w + gx;
            let ghost prev = *self;
            self.world_y.set(idx, c.columns.heights[k]);
            self.water_depth.set(idx, c.columns.depths[k]);
            self.valid.set(idx, true);
            self.colors.put_pixel(gx as u32, gz as u32, c.columns.colors[k]);
            proof {
                assert forall|i: int| 0 <= i < self.world_y@.len() implies -2048 <= #[trigger] self.world_y@[i] <= 2047 by {
                    if i != idx {
                        assert(self.world_y@[i] == prev.world_y@[i]);
                    }
                }
                assert forall|i: int| 0 <= i < self.water_depth@.len() implies #[trigger] self.water_depth@[i] >= 0 by {
                    if i != idx {
                        assert(self.water_depth@[i] == prev.water_depth@[i]);
                    }
                }
                assert forall|gx2: int, gz2: int| 0 <= gx2 < before.width && 0 <= gz2 < before.height
                    implies #[trigger] self.placed(before, *c, gx2, gz2, k + 1) by {
                    assert(prev.placed(before, *c, gx2, gz2, k as int));
                    lemma_grid_index(w as int, self.height as int, gx2, gz2, gx as int, gz as int);
                    if gx2 == gx && gz2 == gz {
                        assert((gz2 - oz) * 16 + (gx2 - ox) == k);
                    } else {
                        let i2 = grid_index(w as int, gx2, gz2);
                        assert(self.world_y@[i2] == prev.world_y@[i2]);
                        assert(self.water_depth@[i2] == prev.water_depth@[i2]);
                        assert(self.valid@[i2] == prev.valid@[i2]);
                        assert(self.colors.same_pixel(gx2, gz2, &prev.colors, gx2, gz2));
                    }
                }
            }
            k = k + 1;
        }
    }
}

impl DimensionMap {
    /// Pixel (gx, gz) lies on the 16x16 place of chunk `c`.
    pub open spec fn covers(&self, c: ProcessedChunk, gx: int, gz: int) -> bool {
        &&& 0 <= gx - self.chunk_origin_x(c) < 16
        &&& 0 <= gz - self.chunk_origin_z(c) < 16
    }

    /// Index of the last chunk of `chunks` whose place holds pixel (gx, gz).
    pub open spec fn last_cover(&self, chunks: Seq<ProcessedChunk>, gx: int, gz: int) -> Option<int>
        decreases chunks.len(),
    {
        if chunks.len() == 0 {
            None
        } else if self.covers(chunks.last(), gx, gz) {
            Some(chunks.len() - 1)
        } else {
            self.last_cover(chunks.drop_last(), gx, gz)
        }
    }

    /// The last covering chunk is one of the chunks, and covers the pixel.
    pub proof fn lemma_last_cover_in(&self, chunks: Seq<ProcessedChunk>, gx: int, gz: int)
        ensures
            self.last_cover(chunks, gx, gz) matches Some(j) ==> 0 <= j < chunks.len() && self.covers(chunks[j], gx, gz),
        decreases chunks.len(),
    {
        if chunks.len() > 0 && !self.covers(chunks.last(), gx, gz) {
            self.lemma_last_cover_in(chunks.drop_last(), gx, gz);
        }
    }

    /// No pixel lies on the places of two of the chunks.
    pub open spec fn places_disjoint(&self, chunks: Seq<ProcessedChunk>) -> bool {
        forall|i: int, j: int, gx: int, gz: int|
            0 <= i < j < chunks.len() && #[trigger] self.covers(chunks[i], gx, gz) ==> !#[trigger] self.covers(
                chunks[j],
                gx,
                gz,
            )
    }

    /// A chunk whose place holds the pixel makes `last_cover` find one.
    proof fn lemma_last_cover_found(&self, chunks: Seq<ProcessedChunk>, gx: int, gz: int, i: int)
        requires
            0 <= i < chunks.len(),
            self.covers(chunks[i], gx, gz),
        ensures
            self.last_cover(chunks, gx, gz) is Some,
        decreases chunks.len(),
    {
        if i < chunks.len() - 1 && !self.covers(chunks.last(), gx, gz) {
            assert(chunks.drop_last()[i] == chunks[i]);
            self.lemma_last_cover_found(chunks.drop_last(), gx, gz, i);
        }
    }

    /// Where no pixel lies on two places, the order in which chunks are
    /// placed does not matter: the same chunks, in any order, give every
    /// pixel the same content.
    pub proof fn lemma_placement_order_free(
        &self,
        before: DimensionMap,
        first: Seq<ProcessedChunk>,
        second: Seq<ProcessedChunk>,
        gx: int,
        gz: int,
    )
        requires
            before.places_disjoint(first),
            before.places_disjoint(second),
            forall|c: ProcessedChunk| first.contains(c) <==> second.contains(c),
        ensures
            self.all_placed(before, first, gx, gz) == self.all_placed(before, second, gx, gz),
    {
        before.lemma_last_cover_in(first, gx, gz);
        before.lemma_last_cover_in(second, gx, gz);
        match before.last_cover(first, gx, gz) {
            Some(j) => {
                let c = first[j];
                assert(first.contains(c));
                let k = choose|k: int| 0 <= k < second.len() && second[k] == c;
                before.lemma_last_cover_found(second, gx, gz, k);
                let k2 = before.last_cover(second, gx, gz)->Some_0;
                if k2 < k {
                    assert(before.covers(second[k2], gx, gz) && before.covers(second[k], gx, gz));
                } else if k < k2 {
                    assert(before.covers(second[k], gx, gz) && before.covers(second[k2], gx, gz));
                }
            },
            None => {
                if let Some(k) = before.last_cover(second, gx, gz) {
                    let c = second[k];
                    assert(second.contains(c));
                    let i = choose|i: int| 0 <= i < first.len() && first[i] == c;
                    before.lemma_last_cover_found(first, gx, gz, i);
                }
            },
        }
    }

    /// Two maps made by placing the same chunks, in any two orders, on the same
    /// map hold the same content at every pixel, when no pixel lies on two
    /// places.
    pub proof fn lemma_placed_maps_agree(
        before: DimensionMap,
        first: Seq<ProcessedChunk>,
        second: Seq<ProcessedChunk>,
        m1: DimensionMap,
        m2: DimensionMap,
        gx: int,
        gz: int,
    )
        requires
            m1.wf(),
            m2.wf(),
            m1.width == before.width,
            m2.width == before.width,
            before.places_disjoint(first),
            before.places_disjoint(second),
            forall|c: ProcessedChunk| first.contains(c) <==> second.contains(c),
            m1.all_placed(before, first, gx, gz),
            m2.all_placed(before, second, gx, gz),
        ensures
            m1.same_cell(gx, gz, m2),
    {
        m2.lemma_placement_order_free(before, first, second, gx, gz);
    }

    /// Pixel (gx, gz) after `chunks` were placed on `before` in turn: the cell
    /// of the last chunk that covers it, or what `before` held there.
    pub open spec fn all_placed(&self, before: DimensionMap, chunks: Seq<ProcessedChunk>, gx: int, gz: int) -> bool {
        match before.last_cover(chunks, gx, gz) {
            Some(j) => self.shows_cell(
                gx,
                gz,
                chunks[j],
                (gz - before.chunk_origin_z(chunks[j])) * 16 + (gx - before.chunk_origin_x(chunks[j])),
            ),
            None => self.same_cell(gx, gz, before),
        }
    }

    /// Places the chunks on the map one after another, so that where two
    /// chunks share a place the later one shows.
    pub fn place_chunks(&mut self, chunks: &Vec<ProcessedChunk>)
        requires
            old(self).wf(),
            forall|j: int| 0 <= j < chunks@.len() ==> old(self).fits(#[trigger] chunks@[j]),
        ensures
            final(self).wf(),
            final(self).min_rx == old(self).min_rx,
            final(self).min_rz == old(self).min_rz,
            final(self).width == old(self).width,
            final(self).height == old(self).height,
            forall|gx: int, gz: int| 0 <= gx < old(self).width && 0 <= gz < old(self).height
                ==> #[trigger] final(self).all_placed(*old(self), chunks@, gx, gz),
    {
        let ghost before = *self;
        let mut i: usize = 0;
        proof {
            assert forall|gx: int, gz: int| 0 <= gx < before.width && 0 <= gz < before.height
                implies #[trigger] self.all_placed(before, chunks@.take(0), gx, gz) by {
                assert(before.last_cover(chunks@.take(0), gx, gz) is None);
            }
        }
        while i < chunks.len()
            invariant
                before.wf(),
                forall|j: int| 0 <= j < chunks@.len() ==> before.fits(#[trigger] chunks@[j]),
                self.wf(),
                self.min_rx == before.min_rx,
                self.min_rz == before.min_rz,
                self.width == before.width,
                self.height == before.height,
                i <= chunks@.len(),
                forall|gx: int, gz: int| 0 <= gx < before.width && 0 <= gz < before.height
                    ==> #[trigger] self.all_placed(before, chunks@.take(i as int), gx, gz),
            decreases chunks.len() - i,
        {
            let ghost prev = *self;
            let c = &chunks[i];
            assert(prev.fits(*c));
            self.place_chunk(c);
            proof {
                let done = chunks@.take(i + 1);
                assert(done.drop_last() =~= chunks@.take(i as int));
                assert(done.last() == chunks@[i as int]);
                assert forall|gx: int, gz: int| 0 <= gx < before.width && 0 <= gz < before.height
                    implies #[trigger] self.all_placed(before, done, gx, gz) by {
                    assert(self.placed(prev, *c, gx, gz, 256));
                    assert(prev.all_placed(before, chunks@.take(i as int), gx, gz));
                    if before.covers(*c, gx, gz) {
                        assert(before.last_cover(done, gx, gz) == Some(i as int));
                        assert(done[i as int] == *c);
                        assert(prev.chunk_origin_x(*c) == before.chunk_origin_x(*c));
                        assert(prev.chunk_origin_z(*c) == before.chunk_origin_z(*c));
                    } else {
                        assert(before.last_cover(done, gx, gz) == before.last_cover(chunks@.take(i as int), gx, gz));
                        assert(self.same_cell(gx, gz, prev));
                        before.lemma_last_cover_in(chunks@.take(i as int), gx, gz);
                        match before.last_cover(done, gx, gz) {
                            Some(j) => {
                                assert(done[j] == chunks@.take(i as int)[j]);
                            },
                            None => {},
                        }
                    }
                }
            }
            i = i + 1;
        }
        assert(chunks@.take(chunks@.len() as int) =~= chunks@);
    }
}

/// Cell (x, z) of a placed chunk `c` lands on pixel column
/// `(c.reg_x - before.min_rx) * 512 + c.cx * 16 + x` and pixel row
/// `(c.reg_z - before.min_rz) * 512 + c.cz * 16 + z`: that pixel is covered and
/// holds the colour, height and water depth of column `z * 16 + x` of the chunk.
pub proof fn lemma_chunk_cell_lands(before: DimensionMap, after: DimensionMap, c: ProcessedChunk, x: int, z: int)
    requires
        before.wf(),
        before.fits(c),
        after.wf(),
        after.width == before.width,
        after.height == before.height,
        forall|gx: int, gz: int| 0 <= gx < before.width && 0 <= gz < before.height
            ==> #[trigger] after.placed(before, c, gx, gz, 256),
        0 <= x < 16,
        0 <= z < 16,
    ensures
        ({
            let gx = (c.reg_x - before.min_rx) * 512 + c.cx * 16 + x;
            let gz = (c.reg_z - before.min_rz) * 512 + c.cz * 16 + z;
            let i = gz * before.width + gx;
            let k = z * 16 + x;
            &&& 0 <= i < after.world_y@.len()
            &&& after.world_y@[i] == c.columns.heights@[k]
            &&& after.water_depth@[i] == c.columns.depths@[k]
            &&& after.valid@[i]
            &&& after.colors.pixels@[3 * i] == c.columns.colors@[k][0]
            &&& after.colors.pixels@[3 * i + 1] == c.columns.colors@[k][1]
            &&& after.colors.pixels@[3 * i + 2] == c.columns.colors@[k][2]
        }),
{
    let gx = (c.reg_x - before.min_rx) * 512 + c.cx * 16 + x;
    let gz = (c.reg_z - before.min_rz) * 512 + c.cz * 16 + z;
    assert(after.placed(before, c, gx, gz, 256));
    lemma_grid_index(before.width as int, before.height as int, gx, gz, gx, gz);
}

/// Placing a chunk changes no pixel outside its 16x16 place: every other
/// pixel keeps its colour, height, water depth and coverage.
pub proof fn lemma_chunk_leaves_rest(before: DimensionMap, after: DimensionMap, c: ProcessedChunk, gx: int, gz: int)
    requires
        before.wf(),
        before.fits(c),
        after.wf(),
        after.width == before.width,
        after.height == before.height,
        forall|px: int, pz: int| 0 <= px < before.width && 0 <= pz < before.height
            ==> #[trigger] after.placed(before, c, px, pz, 256),
        0 <= gx < before.width,
        0 <= gz < before.height,
        !((c.reg_x - before.min_rx) * 512 + c.cx * 16 <= gx < (c.reg_x - before.min_rx) * 512 + c.cx * 16 + 16
            && (c.reg_z - before.min_rz) * 512 + c.cz * 16 <= gz < (c.reg_z - before.min_rz) * 512 + c.cz * 16 + 16),
    ensures
        ({
            let i = gz * before.width + gx;
            &&& after.world_y@[i] == before.world_y@[i]
            &&& after.water_depth@[i] == before.water_depth@[i]
            &&& after.valid@[i] == before.valid@[i]
            &&& after.colors.pixels@[3 * i] == before.colors.pixels@[3 * i]
            &&& after.colors.pixels@[3 * i + 1] == before.colors.pixels@[3 * i + 1]
            &&& after.colors.pixels@[3 * i + 2] == before.colors.pixels@[3 * i + 2]
        }),
{
    assert(after.placed(before, c, gx, gz, 256));
}

/// Two places `a * 512 + u` and `b * 512 + v` with `u`, `v` below 512 are the
/// same only for `a == b` and `u == v`.
proof fn lemma_place_parts(a: int, u: int, b: int, v: int)
    requires
        0 <= u < 512,
        0 <= v < 512,
        a * 512 + u == b * 512 + v,
    ensures
        a == b,
        u == v,
{
    assert(a == b) by (nonlinear_arith)
        requires
            0 <= u < 512,
            0 <= v < 512,
            a * 512 + u == b * 512 + v,
    ;
}

/// Chunks at distinct positions (region and chunk coordinates) never share a
/// pixel: after all of them are placed, cell (x, z) of each lands on pixel
/// column `(reg_x - min_rx) * 512 + cx * 16 + x` and pixel row
/// `(reg_z - min_rz) * 512 + cz * 16 + z`, which holds the colour, height and
/// water depth of column `z * 16 + x` of that chunk.
pub proof fn lemma_chunks_cells_land(
    before: DimensionMap,
    after: DimensionMap,
    chunks: Seq<ProcessedChunk>,
    j: int,
    x: int,
    z: int,
)
    requires
        before.wf(),
        forall|a: int| 0 <= a < chunks.len() ==> before.fits(#[trigger] chunks[a]),
        forall|a: int, b: int|
            0 <= a < b < chunks.len() ==> !(#[trigger] chunks[a].reg_x == #[trigger] chunks[b].reg_x
                && chunks[a].reg_z == chunks[b].reg_z && chunks[a].cx == chunks[b].cx && chunks[a].cz
                == chunks[b].cz),
        after.wf(),
        after.width == before.width,
        after.height == before.height,
        forall|gx: int, gz: int| 0 <= gx < before.width && 0 <= gz < before.height
            ==> #[trigger] after.all_placed(before, chunks, gx, gz),
        0 <= j < chunks.len(),
        0 <= x < 16,
        0 <= z < 16,
    ensures
        ({
            let c = chunks[j];
            let gx = (c.reg_x - before.min_rx) * 512 + c.cx * 16 + x;
            let gz = (c.reg_z - before.min_rz) * 512 + c.cz * 16 + z;
            let i = gz * before.width + gx;
            let k = z * 16 + x;
            &&& 0 <= i < after.world_y@.len()
            &&& after.world_y@[i] == c.columns.heights@[k]
            &&& after.water_depth@[i] == c.columns.depths@[k]
            &&& after.valid@[i]
            &&& after.colors.pixels@[3 * i] == c.columns.colors@[k][0]
            &&& after.colors.pixels@[3 * i + 1] == c.columns.colors@[k][1]
            &&& after.colors.pixels@[3 * i + 2] == c.columns.colors@[k][2]
        }),
{
    let c = chunks[j];
    assert(before.fits(c));
    let gx = (c.reg_x - before.min_rx) * 512 + c.cx * 16 + x;
    let gz = (c.reg_z - before.min_rz) * 512 + c.cz * 16 + z;
    assert(after.all_placed(before, chunks, gx, gz));
    before.lemma_last_cover_found(chunks, gx, gz, j);
    before.lemma_last_cover_in(chunks, gx, gz);
    let jj = before.last_cover(chunks, gx, gz)->Some_0;
    let d = chunks[jj];
    assert(before.fits(d));
    lemma_place_parts(d.reg_x - before.min_rx, d.cx * 16 + (gx - before.chunk_origin_x(d)), c.reg_x - before.min_rx, c.cx * 16 + x);
    lemma_place_parts(d.reg_z - before.min_rz, d.cz * 16 + (gz - before.chunk_origin_z(d)), c.reg_z - before.min_rz, c.cz * 16 + z);
    if jj < j {
        assert(!(chunks[jj].reg_x == chunks[j].reg_x && chunks[jj].reg_z == chunks[j].reg_z && chunks[jj].cx == chunks[j].cx
            && chunks[jj].cz == chunks[j].cz));
    } else if j < jj {
        assert(!(chunks[j].reg_x == chunks[jj].reg_x && chunks[j].reg_z == chunks[jj].reg_z && chunks[j].cx == chunks[jj].cx
            && chunks[j].cz == chunks[jj].cz));
    }
    lemma_grid_index(before.width as int, before.height as int, gx, gz, gx, gz);
}

/// A pixel of the map that shows dry land: covered, with no water on top.
pub open spec fn is_land(m: DimensionMap, i: int) -> bool {
    m.valid@[i] && m.water_depth@[i] == 0
}

/// The span of land heights used to shade the height map.
#[derive(Clone, Copy, Debug, PartialEq, Eq, Structural)]
pub struct LandRange {
    pub min_y: i16,
    pub max_y: i16,
    pub max_diff: i16,
}

/// `r` spans the land of `m`: the lowest and highest land heights (-64 and
/// 320 when there is no land at all), and their difference, at least 1.
pub open spec fn land_range_of(m: DimensionMap, r: LandRange) -> bool {
    let n = m.world_y@.len() as int;
    &&& if exists|i: int| 0 <= i < n && #[trigger] is_land(m, i) {
        &&& (exists|i: int| 0 <= i < n && #[trigger] is_land(m, i) && m.world_y@[i] == r.min_y)
        &&& (exists|i: int| 0 <= i < n && #[trigger] is_land(m, i) && m.world_y@[i] == r.max_y)
        &&& (forall|i: int| 0 <= i < n && #[trigger] is_land(m, i) ==> r.min_y <= m.world_y@[i] <= r.max_y)
    } else {
        r.min_y == -64 && r.max_y == 320
    }
    &&& r.max_diff == if r.max_y - r.min_y >= 1 { r.max_y - r.min_y } else { 1 }
}

impl DimensionMap {
    /// The lowest and highest land on the map.
    pub fn land_range(&self) -> (r: LandRange)
        requires
            self.wf(),
        ensures
            land_range_of(*self, r),
            -2048 <= r.min_y <= 2047,
            -2048 <= r.max_y <= 2047,
            1 <= r.max_diff <= 4095,
    {
        let n = self.world_y.len();
        let mut found = false;
        let mut min_y: i16 = i16::MAX;
        let mut max_y: i16 = i16::MIN;
        let mut i: usize = 0;
        while i < n
            invariant
                self.wf(),
                n == self.world_y@.len(),
                i <= n,
                found <==> exists|j: int| 0 <= j < i && #[trigger] is_land(*self, j),
                found ==> (exists|j: int| 0 <= j < i && #[trigger] is_land(*self, j) && self.world_y@[j] == min_y),
                found ==> (exists|j: int| 0 <= j < i && #[trigger] is_land(*self, j) && self.world_y@[j] == max_y),
                forall|j: int| 0 <= j < i && #[trigger] is_land(*self, j) ==> min_y <= self.world_y@[j] <= max_y,
            decreases n - i,
        {
            if self.valid[i] && self.water_depth[i] == 0 {
                let y = self.world_y[i];
                if !found || y < min_y {
                    min_y = y;
                }
                if !found || y > max_y {
                    max_y = y;
                }
                found = true;
                assert(is_land(*self, i as int));
            }
            i = i + 1;
        }
        if !found {
            min_y = -64;
            max_y = 320;
        } else {
            proof {
                let a = choose|j: int| 0 <= j < i && #[trigger] is_land(*self, j) && self.world_y@[j] == min_y;
                let b = choose|j: int| 0 <= j < i && #[trigger] is_land(*self, j) && self.world_y@[j] == max_y;
                assert(-2048 <= self.world_y@[a] <= 2047 && -2048 <= self.world_y@[b] <= 2047);
            }
        }
        let d = max_y - min_y;
        let max_diff = if d >= 1 { d } else { 1 };
        LandRange { min_y, max_y, max_diff }
    }
}

/// How a pixel of the height map is coloured: background where no chunk
/// lies, by water depth where there is water, and by height above the lowest
/// land (out of the land's height span) elsewhere.
#[derive(Clone, Copy, Debug, PartialEq, Eq, Structural)]
pub enum HeightShade {
    Background,
    Water(i16),
    Land(i16, i16),
}

/// The shade of map pixel `i` for the land span `r`.
pub open spec fn shade_at(m: DimensionMap, r: LandRange, i: int) -> HeightShade {
    if !m.valid@[i] {
        HeightShade::Background
    } else if m.water_depth@[i] > 0 {
        HeightShade::Water(m.water_depth@[i])
    } else {
        let diff = m.world_y@[i] - r.min_y;
        HeightShade::Land(if diff >= 0 { diff as i16 } else { 0 }, r.max_diff)
    }
}

impl DimensionMap {
    /// The shade of every pixel of the height map, in row-major order.
    pub fn height_shades(&self, r: LandRange) -> (shades: Vec<HeightShade>)
        requires
            self.wf(),
            -2048 <= r.min_y <= 2047,
        ensures
            shades@.len() == self.world_y@.len(),
            forall|i: int| 0 <= i < shades@.len() ==> #[trigger] shades@[i] == shade_at(*self, r, i),
            forall|i: int| 0 <= i < shades@.len() ==> ((#[trigger] shades@[i] is Water) <==> (self.valid@[i]
                && self.water_depth@[i] >= 1)),
            forall|i: int| 0 <= i < shades@.len() ==> ((#[trigger] shades@[i] is Land) <==> (self.valid@[i]
                && self.water_depth@[i] == 0)),
            forall|i: int|
                0 <= i < shades@.len() && self.valid@[i] && self.water_depth@[i] >= 1 ==> #[trigger] shades@[i]
                    == HeightShade::Water(self.water_depth@[i]),
    {
        let n = self.world_y.len();
        let mut shades: Vec<HeightShade> = Vec::with_capacity(n);
        let mut i: usize = 0;
        while i < n
            invariant
                self.wf(),
                -2048 <= r.min_y <= 2047,
                n == self.world_y@.len(),
                i <= n,
                shades@.len() == i,
                forall|j: int| 0 <= j < i ==> #[trigger] shades@[j] == shade_at(*self, r, j),
            decreases n - i,
        {
            let shade = if !self.valid[i] {
                HeightShade::Background
            } else if self.water_depth[i] > 0 {
                HeightShade::Water(self.water_depth[i])
            } else {
                let diff = self.world_y[i] - r.min_y;
                HeightShade::Land(if diff >= 0 { diff } else { 0 }, r.max_diff)
            };
            shades.push(shade);
            i = i + 1;
        }
        proof {
            assert forall|p: int| 0 <= p < shades@.len() implies {
                &&& ((#[trigger] shades@[p] is Water) <==> (self.valid@[p] && self.water_depth@[p] >= 1))
                &&& ((shades@[p] is Land) <==> (self.valid@[p] && self.water_depth@[p] == 0))
                &&& (self.valid@[p] && self.water_depth@[p] >= 1 ==> shades@[p] == HeightShade::Water(
                    self.water_depth@[p],
                ))
            } by {
                lemma_shades_by_pixel(*self, r, shades@, p);
            }
        }
        shades
    }
}

/// Water depth rounded down to bands of three blocks (1, 4, 7, ...) and
/// held within 1..=30; depths of 1 or less give 1.
pub open spec fn banded_depth(depth: int) -> int {
    if depth <= 1 {
        1
    } else {
        let b = ((depth - 1) / 3) * 3 + 1;
        if b > 30 { 30 } else { b }
    }
}

/// One colour channel blended from `from` (band 1) down to `from - span`
/// (band 30), linear in the band, rounded down.
pub open spec fn water_channel(from: int, span: int, banded: int) -> int {
    (from * 29 - span * (banded - 1)) / 29
}

/// Colour of water of the given depth on the height map: from `[90, 200, 245]`
/// for shallow water to `[10, 40, 110]` at 30 blocks and below.
pub open spec fn spec_water_color(depth: int) -> [u8; 3] {
    let d = banded_depth(depth);
    [water_channel(90, 80, d) as u8, water_channel(200, 160, d) as u8, water_channel(245, 135, d) as u8]
}

/// Colour of water of the given depth on the height map (see `spec_water_color`).
pub fn depth_to_water_color(depth: i16) -> (rgb: [u8; 3])
    requires
        depth > i16::MIN,
    ensures
        rgb == spec_water_color(depth as int),
        rgb[0] == water_channel(90, 80, banded_depth(depth as int)),
        rgb[1] == water_channel(200, 160, banded_depth(depth as int)),
        rgb[2] == water_channel(245, 135, banded_depth(depth as int)),
{
    let d: u32 = if depth <= 1 {
        1
    } else {
        let b = (((depth - 1) as u32) / 3) * 3 + 1;
        if b > 30 {
            30
        } else {
            b
        }
    };
    let k: u32 = d - 1;
    let r = ((90 * 29 - 80 * k) / 29) as u8;
    let g = ((200 * 29 - 160 * k) / 29) as u8;
    let b = ((245 * 29 - 135 * k) / 29) as u8;
    [r, g, b]
}

/// Every land pixel of the height map is shaded by a height difference
/// between 0 and the land's span.
pub proof fn lemma_land_shade_within_span(m: DimensionMap, r: LandRange, i: int)
    requires
        m.wf(),
        land_range_of(m, r),
        0 <= i < m.world_y@.len(),
        is_land(m, i),
    ensures
        shade_at(m, r, i) matches HeightShade::Land(diff, span) && 0 <= diff <= span && span == r.max_diff,
{
}

/// What the height map shows at each pixel, given the shades computed for
/// a map: an uncovered pixel is background; a covered pixel with water on
/// top (depth 1 or more) is water of that depth; a covered pixel with no
/// water is land, at its height above the lowest land (0 when lower) out of
/// the span. So a pixel is land exactly when it is covered and dry.
pub proof fn lemma_shades_by_pixel(m: DimensionMap, r: LandRange, shades: Seq<HeightShade>, i: int)
    requires
        m.wf(),
        shades.len() == m.world_y@.len(),
        forall|p: int| 0 <= p < shades.len() ==> #[trigger] shades[p] == shade_at(m, r, p),
        0 <= i < shades.len(),
    ensures
        !m.valid@[i] ==> shades[i] == HeightShade::Background,
        m.valid@[i] && m.water_depth@[i] >= 1 ==> shades[i] == HeightShade::Water(m.water_depth@[i]),
        m.valid@[i] && m.water_depth@[i] == 0 ==> shades[i] == HeightShade::Land(
            if m.world_y@[i] >= r.min_y { (m.world_y@[i] - r.min_y) as i16 } else { 0i16 },
            r.max_diff,
        ),
        (shades[i] is Land) <==> (m.valid@[i] && m.water_depth@[i] == 0),
        (shades[i] is Water) <==> (m.valid@[i] && m.water_depth@[i] >= 1),
{
    assert(shades[i] == shade_at(m, r, i));
    assert(m.water_depth@[i] >= 0);
}

/// Water depths in the same band of three blocks, and all depths of 31 or
/// more, are drawn in the same colour.
pub proof fn lemma_water_color_banded(d1: int, d2: int)
    requires
        d1 >= 1,
        d2 >= 1,
        (d1 - 1) / 3 == (d2 - 1) / 3 || (d1 >= 31 && d2 >= 31),
    ensures
        spec_water_color(d1) == spec_water_color(d2),
{
    assert(banded_depth(d1) == banded_depth(d2));
}

/// Deeper water is never drawn lighter: no colour channel grows with depth.
pub proof fn lemma_water_color_darkens(d1: int, d2: int)
    requires
        d1 <= d2,
    ensures
        spec_water_color(d2)[0] <= spec_water_color(d1)[0],
        spec_water_color(d2)[1] <= spec_water_color(d1)[1],
        spec_water_color(d2)[2] <= spec_water_color(d1)[2],
{
    let b1 = banded_depth(d1);
    let b2 = banded_depth(d2);
    if d1 > 1 {
        assert((d1 - 1) / 3 <= (d2 - 1) / 3) by (nonlinear_arith)
            requires
                1 <= d1 - 1 <= d2 - 1,
        ;
    }
    assert(1 <= b1 <= b2 <= 30);
    assert(water_channel(90, 80, b2) <= water_channel(90, 80, b1)) by (nonlinear_arith)
        requires
            1 <= b1 <= b2 <= 30,
    ;
    assert(water_channel(200, 160, b2) <= water_channel(200, 160, b1)) by (nonlinear_arith)
        requires
            1 <= b1 <= b2 <= 30,
    ;
    assert(water_channel(245, 135, b2) <= water_channel(245, 135, b1)) by (nonlinear_arith)
        requires
            1 <= b1 <= b2 <= 30,
    ;
    assert(10 <= water_channel(90, 80, b2) <= 90) by (nonlinear_arith)
        requires
            1 <= b2 <= 30,
    ;
    assert(40 <= water_channel(200, 160, b2) <= 200) by (nonlinear_arith)
        requires
            1 <= b2 <= 30,
    ;
    assert(110 <= water_channel(245, 135, b2) <= 245) by (nonlinear_arith)
        requires
            1 <= b2 <= 30,
    ;
    assert(10 <= water_channel(90, 80, b1) <= 90) by (nonlinear_arith)
        requires
            1 <= b1 <= 30,
    ;
    assert(40 <= water_channel(200, 160, b1) <= 200) by (nonlinear_arith)
        requires
            1 <= b1 <= 30,
    ;
    assert(110 <= water_channel(245, 135, b1) <= 245) by (nonlinear_arith)
        requires
            1 <= b1 <= 30,
    ;
}

} // verus!
