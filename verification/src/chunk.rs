use vstd::prelude::*;
use crate::block_to_rgb::{
    Block, BlockColors, MissingBlocks, block_to_rgb, spec_block_rgb, is_water_like, is_air, is_water,
    block_for_name, is_unmapped_name, parse_block_name, missing_after, reported_names, lemma_reports_concatenate,
};
use crate::section::{Section, get_block_at};

verus! {

/// World height of cell `i` of a column read from the top through `secs`:
/// each section gives 16 cells, from its top layer down.
pub open spec fn cell_y(secs: Seq<Section>, i: int) -> int {
    secs[i / 16].y * 16 + (15 - i % 16)
}

/// The block in cell `i` of column (x, z), read from the top through `secs`.
/// In the nether everything above y = 85 reads as air.
pub open spec fn cell_block(secs: Seq<Section>, x: nat, z: nat, nether: bool, i: int) -> Block {
    if nether && cell_y(secs, i) > 85 {
        Block::Air
    } else {
        secs[i / 16].block(x, (15 - i % 16) as nat, z)
    }
}

/// Number of water cells from cell `i` down, not counting air, up to the
/// first block that is neither air nor water.
pub open spec fn water_run(secs: Seq<Section>, x: nat, z: nat, nether: bool, i: int) -> nat
    decreases 16 * secs.len() - i,
{
    if i < 0 || i >= 16 * secs.len() {
        0
    } else if cell_block(secs, x, z, nether, i) is Air {
        water_run(secs, x, z, nether, i + 1)
    } else if is_water_like(cell_block(secs, x, z, nether, i)) {
        1 + water_run(secs, x, z, nether, i + 1)
    } else {
        0
    }
}

/// What a column shows from above: the height and colour of its top
/// non-air block, and the depth of water there (0 when it is not water).
pub struct ColumnTop {
    pub y: i16,
    pub color: [u8; 3],
    pub water_depth: i16,
}

/// The top of column (x, z) read from cell `i` down; `None` when all of it is air.
pub open spec fn column_top_from(secs: Seq<Section>, x: nat, z: nat, nether: bool, i: int) -> Option<ColumnTop>
    decreases 16 * secs.len() - i,
{
    if i < 0 || i >= 16 * secs.len() {
        None
    } else if cell_block(secs, x, z, nether, i) is Air {
        column_top_from(secs, x, z, nether, i + 1)
    } else {
        let b = cell_block(secs, x, z, nether, i);
        Some(ColumnTop {
            y: cell_y(secs, i) as i16,
            color: spec_block_rgb(b),
            water_depth: if is_water_like(b) { water_run(secs, x, z, nether, i) as i16 } else { 0 },
        })
    }
}

/// The top of column (x, z) of a chunk whose sections, highest first, are `secs`.
pub open spec fn column_top(secs: Seq<Section>, x: nat, z: nat, nether: bool) -> Option<ColumnTop> {
    column_top_from(secs, x, z, nether, 0)
}

/// Length of the water run at the top of column (x, z) read from cell `i`
/// down: 0 when the top block is not water or the column is all air.
pub open spec fn top_water_run_from(secs: Seq<Section>, x: nat, z: nat, nether: bool, i: int) -> nat
    decreases 16 * secs.len() - i,
{
    if i < 0 || i >= 16 * secs.len() {
        0
    } else if cell_block(secs, x, z, nether, i) is Air {
        top_water_run_from(secs, x, z, nether, i + 1)
    } else if is_water_like(cell_block(secs, x, z, nether, i)) {
        water_run(secs, x, z, nether, i)
    } else {
        0
    }
}

/// The water at the top of column (x, z) is at most 32767 blocks deep, so
/// that an `i16` counts it.
pub open spec fn column_fits(secs: Seq<Section>, x: nat, z: nat, nether: bool) -> bool {
    top_water_run_from(secs, x, z, nether, 0) <= 32767
}

/// Sections that the column scan can read: each palette addressable, and the
/// cell count of a column within `usize`.
pub open spec fn scannable(secs: Seq<Section>) -> bool {
    &&& 16 * secs.len() <= usize::MAX
    &&& forall|k: int| 0 <= k < secs.len() ==> (#[trigger] secs[k]).addressable()
}

/// A column holds more water at its top than an `i16` counts.
#[derive(Clone, Copy, Debug, PartialEq, Eq, Structural)]
pub struct WaterTooDeep;

/// Scans column (x, z) from the top for its first non-air block; fails when
/// the water there is deeper than an `i16` counts.
pub fn scan_column(secs: &Vec<Section>, x: usize, z: usize, nether: bool) -> (top: Result<Option<ColumnTop>, WaterTooDeep>)
    requires
        scannable(secs@),
        x < 16,
        z < 16,
    ensures
        top is Err <==> !column_fits(secs@, x as nat, z as nat, nether),
        top matches Ok(t) ==> t == column_top(secs@, x as nat, z as nat, nether),
{
    let n = secs.len() * 16;
    let mut i: usize = 0;
    let mut top: Option<(i16, [u8; 3])> = None;
    let mut depth: i16 = 0;
    let ghost mut t: int = 0;
    while i < n
        invariant
            n == 16 * secs@.len(),
            scannable(secs@),
            x < 16,
            z < 16,
            i <= n,
            top is None ==> column_top(secs@, x as nat, z as nat, nether)
                == column_top_from(secs@, x as nat, z as nat, nether, i as int)
                && top_water_run_from(secs@, x as nat, z as nat, nether, 0)
                == top_water_run_from(secs@, x as nat, z as nat, nether, i as int),
            top matches Some(tc) ==> {
                &&& 0 <= t < i
                &&& is_water_like(cell_block(secs@, x as nat, z as nat, nether, t))
                &&& column_top(secs@, x as nat, z as nat, nether) == Some(ColumnTop {
                    y: tc.0,
                    color: tc.1,
                    water_depth: water_run(secs@, x as nat, z as nat, nether, t) as i16,
                })
                &&& top_water_run_from(secs@, x as nat, z as nat, nether, 0)
                    == water_run(secs@, x as nat, z as nat, nether, t)
                &&& water_run(secs@, x as nat, z as nat, nether, t)
                    == depth + water_run(secs@, x as nat, z as nat, nether, i as int)
                &&& 1 <= depth
            },
        decreases n - i,
    {
        let s = i / 16;
        let k = i % 16;
        let y_rel = 15 - k;
        let world_y: i16 = (secs[s].y as i16) * 16 + (y_rel as i16);
        assert(world_y == cell_y(secs@, i as int));
        assert(secs@[s as int].addressable());
        let block = if nether && world_y > 85 {
            Block::Air
        } else {
            get_block_at(&secs[s], x, y_rel, z)
        };
        assert(block == cell_block(secs@, x as nat, z as nat, nether, i as int));
        if !is_air(block) {
            match top {
                None => {
                    let color = block_to_rgb(block);
                    if is_water(block) {
                        top = Some((world_y, color));
                        depth = 1;
                        proof {
                            t = i as int;
                        }
                    } else {
                        return Ok(Some(ColumnTop { y: world_y, color, water_depth: 0 }));
                    }
                },
                Some(tc) => {
                    if is_water(block) {
                        if depth == i16::MAX {
                            return Err(WaterTooDeep);
                        }
                        depth = depth + 1;
                    } else {
                        return Ok(Some(ColumnTop { y: tc.0, color: tc.1, water_depth: depth }));
                    }
                },
            }
        }
        i = i + 1;
    }
    match top {
        None => Ok(None),
        Some(tc) => Ok(Some(ColumnTop { y: tc.0, color: tc.1, water_depth: depth })),
    }
}

proof fn lemma_column_top_cell(secs: Seq<Section>, x: nat, z: nat, nether: bool, i: int)
    requires
        0 <= i,
    ensures
        column_top_from(secs, x, z, nether, i) matches Some(t) ==> exists|j: int|
            #![trigger cell_y(secs, j)]
            i <= j < 16 * secs.len()
            && !(cell_block(secs, x, z, nether, j) is Air)
            && t.y == cell_y(secs, j)
            && t.color == spec_block_rgb(cell_block(secs, x, z, nether, j))
            && (top_water_run_from(secs, x, z, nether, i) <= 32767 ==> {
                &&& (t.water_depth >= 1 <==> is_water_like(cell_block(secs, x, z, nether, j)))
                &&& t.water_depth >= 0
            }),
    decreases 16 * secs.len() - i,
{
    if i < 16 * secs.len() {
        let b = cell_block(secs, x, z, nether, i);
        if b is Air {
            lemma_column_top_cell(secs, x, z, nether, i + 1);
        } else {
            assert(-2048 <= cell_y(secs, i) <= 2047);
        }
    }
}

/// In the nether, no column shows a block above y = 85.
pub proof fn lemma_nether_top_below_ceiling(secs: Seq<Section>, x: nat, z: nat)
    ensures
        column_top(secs, x, z, true) matches Some(t) ==> t.y <= 85,
{
    lemma_column_top_cell(secs, x, z, true, 0);
}

/// `open` holds the sections of `secs` at the same heights, with every block
/// above y = 85 replaced by air and every other block kept.
pub open spec fn ceiling_cleared(secs: Seq<Section>, open: Seq<Section>) -> bool {
    &&& open.len() == secs.len()
    &&& forall|k: int| 0 <= k < secs.len() ==> (#[trigger] open[k]).y == secs[k].y
    &&& forall|k: int, x: nat, y: nat, z: nat|
        0 <= k < secs.len() && x < 16 && y < 16 && z < 16 ==> #[trigger] open[k].block(x, y, z) == if secs[k].y
            * 16 + y > 85 {
            Block::Air
        } else {
            secs[k].block(x, y, z)
        }
}

/// Two columns whose cells hold the same blocks at the same heights from
/// cell `i` down read the same from there.
proof fn lemma_same_cells_read_same(a: Seq<Section>, an: bool, b: Seq<Section>, bn: bool, x: nat, z: nat, i: int)
    requires
        a.len() == b.len(),
        forall|j: int| 0 <= j < 16 * a.len() ==> #[trigger] cell_y(a, j) == cell_y(b, j),
        forall|j: int| 0 <= j < 16 * a.len() ==> #[trigger] cell_block(a, x, z, an, j) == cell_block(b, x, z, bn, j),
    ensures
        water_run(a, x, z, an, i) == water_run(b, x, z, bn, i),
        column_top_from(a, x, z, an, i) == column_top_from(b, x, z, bn, i),
        top_water_run_from(a, x, z, an, i) == top_water_run_from(b, x, z, bn, i),
    decreases 16 * a.len() - i,
{
    if 0 <= i < 16 * a.len() {
        lemma_same_cells_read_same(a, an, b, bn, x, z, i + 1);
        assert(cell_y(a, i) == cell_y(b, i));
        assert(cell_block(a, x, z, an, i) == cell_block(b, x, z, bn, i));
    }
}

/// A nether column reads as the same column, outside the nether, with every
/// block above y = 85 turned to air: same top, same water, and it fails to
/// fit an `i16` in the one case exactly when in the other.
pub proof fn lemma_nether_is_ceiling_cleared(secs: Seq<Section>, open: Seq<Section>, x: nat, z: nat)
    requires
        ceiling_cleared(secs, open),
        x < 16,
        z < 16,
    ensures
        column_top(secs, x, z, true) == column_top(open, x, z, false),
        column_fits(secs, x, z, true) == column_fits(open, x, z, false),
{
    assert forall|j: int| 0 <= j < 16 * secs.len() implies #[trigger] cell_y(secs, j) == cell_y(open, j) by {
        assert(open[j / 16].y == secs[j / 16].y);
    }
    assert forall|j: int| 0 <= j < 16 * secs.len() implies #[trigger] cell_block(secs, x, z, true, j) == cell_block(
        open,
        x,
        z,
        false,
        j,
    ) by {
        let k = j / 16;
        let y = (15 - j % 16) as nat;
        assert(open[k].block(x, y, z) == if secs[k].y * 16 + y > 85 {
            Block::Air
        } else {
            secs[k].block(x, y, z)
        });
    }
    lemma_same_cells_read_same(secs, true, open, false, x, z, 0);
}

/// A nether chunk reads as the same chunk, outside the nether, with every
/// block above y = 85 turned to air: the same columns, and a column too deep
/// for an `i16` in the one case exactly when in the other.
pub proof fn lemma_nether_chunk_is_ceiling_cleared(secs: Seq<Section>, open: Seq<Section>, cols: ChunkColumns)
    requires
        ceiling_cleared(secs, open),
    ensures
        some_column_too_deep(secs, true) == some_column_too_deep(open, false),
        columns_of(cols, secs, true) == columns_of(cols, open, false),
{
    assert forall|k: int| 0 <= k < 256 implies #[trigger] column_fits(secs, (k % 16) as nat, (k / 16) as nat, true)
        == column_fits(open, (k % 16) as nat, (k / 16) as nat, false) by {
        lemma_nether_is_ceiling_cleared(secs, open, (k % 16) as nat, (k / 16) as nat);
    }
    assert forall|k: int| 0 <= k < 256 implies #[trigger] column_cell(cols.colors@, cols.heights@, cols.depths@, secs, true, k)
        == column_cell(cols.colors@, cols.heights@, cols.depths@, open, false, k) by {
        lemma_nether_is_ceiling_cleared(secs, open, (k % 16) as nat, (k / 16) as nat);
    }
    if columns_of(cols, secs, true) {
        assert forall|k: int| 0 <= k < 256 implies #[trigger] column_cell(cols.colors@, cols.heights@, cols.depths@, open, false, k) by {
            assert(column_cell(cols.colors@, cols.heights@, cols.depths@, secs, true, k));
        }
    }
    if columns_of(cols, open, false) {
        assert forall|k: int| 0 <= k < 256 implies #[trigger] column_cell(cols.colors@, cols.heights@, cols.depths@, secs, true, k) by {
            assert(column_cell(cols.colors@, cols.heights@, cols.depths@, open, false, k));
        }
    }
    if some_column_too_deep(secs, true) {
        let k = choose|k: int| 0 <= k < 256 && !#[trigger] column_fits(secs, (k % 16) as nat, (k / 16) as nat, true);
        assert(!column_fits(open, (k % 16) as nat, (k / 16) as nat, false));
    }
    if some_column_too_deep(open, false) {
        let k = choose|k: int| 0 <= k < 256 && !#[trigger] column_fits(open, (k % 16) as nat, (k / 16) as nat, false);
        assert(!column_fits(secs, (k % 16) as nat, (k / 16) as nat, true));
    }
}

/// A column's top lies in the world's height range, and a column with
/// water on top shows the water colour.
pub proof fn lemma_column_top_shape(secs: Seq<Section>, x: nat, z: nat, nether: bool)
    requires
        column_fits(secs, x, z, nether),
    ensures
        column_top(secs, x, z, nether) matches Some(t) ==> {
            &&& -2048 <= t.y <= 2047
            &&& t.water_depth >= 0
            &&& (t.water_depth >= 1 ==> t.color == [64u8, 64u8, 255u8])
        },
{
    lemma_column_top_cell(secs, x, z, nether, 0);
    if let Some(t) = column_top(secs, x, z, nether) {
        let j = choose|j: int|
            #![trigger cell_y(secs, j)]
            0 <= j < 16 * secs.len()
            && !(cell_block(secs, x, z, nether, j) is Air)
            && t.y == cell_y(secs, j)
            && t.color == spec_block_rgb(cell_block(secs, x, z, nether, j))
            && (top_water_run_from(secs, x, z, nether, 0) <= 32767 ==> {
                &&& (t.water_depth >= 1 <==> is_water_like(cell_block(secs, x, z, nether, j)))
                &&& t.water_depth >= 0
            });
        assert(-2048 <= cell_y(secs, j) <= 2047);
    }
}

/// Number of cells from `from` up to (not including) `to` of column (x, z)
/// that hold water or a bubble column.
pub open spec fn water_cells_between(secs: Seq<Section>, x: nat, z: nat, nether: bool, from: int, to: int) -> nat
    decreases to - from,
{
    if from >= to {
        0
    } else {
        (if cell_block(secs, x, z, nether, from) is Water || cell_block(secs, x, z, nether, from) is BubbleColumn {
            1nat
        } else {
            0nat
        }) + water_cells_between(secs, x, z, nether, from + 1, to)
    }
}

proof fn lemma_run_counts_water(secs: Seq<Section>, x: nat, z: nat, nether: bool, i: int, bottom: int)
    requires
        0 <= i <= bottom <= 16 * secs.len(),
        forall|j: int| i <= j < bottom ==> (#[trigger] cell_block(secs, x, z, nether, j) is Air
            || cell_block(secs, x, z, nether, j) is Water || cell_block(secs, x, z, nether, j) is BubbleColumn),
        bottom == 16 * secs.len() || !(cell_block(secs, x, z, nether, bottom) is Air || cell_block(
            secs,
            x,
            z,
            nether,
            bottom,
        ) is Water || cell_block(secs, x, z, nether, bottom) is BubbleColumn),
    ensures
        water_run(secs, x, z, nether, i) == water_cells_between(secs, x, z, nether, i, bottom),
    decreases bottom - i,
{
    if i < bottom {
        lemma_run_counts_water(secs, x, z, nether, i + 1, bottom);
        assert(cell_block(secs, x, z, nether, i) is Air || cell_block(secs, x, z, nether, i) is Water
            || cell_block(secs, x, z, nether, i) is BubbleColumn);
    }
}

proof fn lemma_top_below_air(secs: Seq<Section>, x: nat, z: nat, nether: bool, i: int, top: int)
    requires
        0 <= i <= top < 16 * secs.len(),
        forall|j: int| 0 <= j < top ==> #[trigger] cell_block(secs, x, z, nether, j) is Air,
    ensures
        column_top_from(secs, x, z, nether, i) == column_top_from(secs, x, z, nether, top),
    decreases top - i,
{
    if i < top {
        lemma_top_below_air(secs, x, z, nether, i + 1, top);
        assert(cell_block(secs, x, z, nether, i) is Air);
    }
}

/// A column whose first non-air cell from the top, `top`, holds water or a
/// bubble column, on top of water and air down to `bottom` (the first cell
/// that is neither, or the column's end): the chunk's cell for it shows the
/// water colour at the height of `top`, and its depth is the number of
/// water cells between `top` and `bottom`, so at least 1.
pub proof fn lemma_water_top_depth(secs: Seq<Section>, nether: bool, cols: ChunkColumns, k: int, top: int, bottom: int)
    requires
        columns_of(cols, secs, nether),
        0 <= k < 256,
        0 <= top < bottom <= 16 * secs.len(),
        forall|j: int| 0 <= j < top ==> #[trigger] cell_block(secs, (k % 16) as nat, (k / 16) as nat, nether, j) is Air,
        cell_block(secs, (k % 16) as nat, (k / 16) as nat, nether, top) is Water || cell_block(
            secs,
            (k % 16) as nat,
            (k / 16) as nat,
            nether,
            top,
        ) is BubbleColumn,
        forall|j: int| top < j < bottom ==> (#[trigger] cell_block(secs, (k % 16) as nat, (k / 16) as nat, nether, j) is Air
            || cell_block(secs, (k % 16) as nat, (k / 16) as nat, nether, j) is Water
            || cell_block(secs, (k % 16) as nat, (k / 16) as nat, nether, j) is BubbleColumn),
        bottom == 16 * secs.len() || !(cell_block(secs, (k % 16) as nat, (k / 16) as nat, nether, bottom) is Air
            || cell_block(secs, (k % 16) as nat, (k / 16) as nat, nether, bottom) is Water || cell_block(
            secs,
            (k % 16) as nat,
            (k / 16) as nat,
            nether,
            bottom,
        ) is BubbleColumn),
        water_cells_between(secs, (k % 16) as nat, (k / 16) as nat, nether, top, bottom) <= 32767,
    ensures
        cols.depths@[k] == water_cells_between(secs, (k % 16) as nat, (k / 16) as nat, nether, top, bottom),
        cols.depths@[k] >= 1,
        cols.heights@[k] == secs[top / 16].y * 16 + (15 - top % 16),
        cols.colors@[k] == [64u8, 64u8, 255u8],
{
    let x = (k % 16) as nat;
    let z = (k / 16) as nat;
    lemma_top_below_air(secs, x, z, nether, 0, top);
    lemma_run_counts_water(secs, x, z, nether, top, bottom);
    assert(-2048 <= cell_y(secs, top) <= 2047);
    assert(column_cell(cols.colors@, cols.heights@, cols.depths@, secs, nether, k));
}

/// A column whose first non-air cell from the top, `top`, holds a block of
/// its own colour: the chunk's cell for it shows that colour at the height
/// of `top`, with no water depth.
pub proof fn lemma_solid_top(secs: Seq<Section>, nether: bool, cols: ChunkColumns, k: int, top: int, rgb: [u8; 3])
    requires
        columns_of(cols, secs, nether),
        0 <= k < 256,
        0 <= top < 16 * secs.len(),
        forall|j: int| 0 <= j < top ==> #[trigger] cell_block(secs, (k % 16) as nat, (k / 16) as nat, nether, j) is Air,
        cell_block(secs, (k % 16) as nat, (k / 16) as nat, nether, top) == Block::Color(rgb),
    ensures
        cols.colors@[k] == rgb,
        cols.heights@[k] == secs[top / 16].y * 16 + (15 - top % 16),
        cols.depths@[k] == 0,
{
    let x = (k % 16) as nat;
    let z = (k / 16) as nat;
    lemma_top_below_air(secs, x, z, nether, 0, top);
    assert(-2048 <= cell_y(secs, top) <= 2047);
    assert(column_cell(cols.colors@, cols.heights@, cols.depths@, secs, nether, k));
}

proof fn lemma_all_air_from(secs: Seq<Section>, x: nat, z: nat, nether: bool, i: int)
    requires
        0 <= i,
        forall|j: int| 0 <= j < 16 * secs.len() ==> #[trigger] cell_block(secs, x, z, nether, j) is Air,
    ensures
        column_top_from(secs, x, z, nether, i) is None,
    decreases 16 * secs.len() - i,
{
    if i < 16 * secs.len() {
        lemma_all_air_from(secs, x, z, nether, i + 1);
    }
}

/// A column of nothing but air keeps the background: colour `[30, 30, 30]`,
/// height -64 and no water.
pub proof fn lemma_empty_column(secs: Seq<Section>, nether: bool, cols: ChunkColumns, k: int)
    requires
        columns_of(cols, secs, nether),
        0 <= k < 256,
        forall|j: int| 0 <= j < 16 * secs.len() ==> #[trigger] cell_block(secs, (k % 16) as nat, (k / 16) as nat, nether, j) is Air,
    ensures
        cols.colors@[k] == [30u8, 30u8, 30u8],
        cols.heights@[k] == -64,
        cols.depths@[k] == 0,
{
    lemma_all_air_from(secs, (k % 16) as nat, (k / 16) as nat, nether, 0);
    assert(column_cell(cols.colors@, cols.heights@, cols.depths@, secs, nether, k));
}

/// The block states of a section as stored: block-state names and packed indices.
pub struct RawBlockStates {
    pub palette: Vec<String>,
    pub data: Option<Vec<i64>>,
}

/// A section as stored in a chunk, before its names are resolved.
pub struct RawSection {
    pub y: i8,
    pub block_states: Option<RawBlockStates>,
}

/// The heights of a chunk's sections, in stored order.
pub open spec fn section_heights(raws: Seq<RawSection>) -> Seq<i8> {
    raws.map_values(|r: RawSection| r.y)
}

/// Index `k` occurs in `order`.
pub open spec fn lists(order: Seq<usize>, k: int) -> bool {
    exists|i: int| 0 <= i < order.len() && order[i] == k
}

/// `order` lists every index of `ys` once, highest height first, sections of
/// equal height keeping their stored order.
pub open spec fn is_descending_order(ys: Seq<i8>, order: Seq<usize>) -> bool {
    &&& order.len() == ys.len()
    &&& forall|i: int| 0 <= i < order.len() ==> #[trigger] order[i] < ys.len()
    &&& forall|k: int| 0 <= k < ys.len() ==> #[trigger] lists(order, k)
    &&& forall|i: int, j: int|
        0 <= i < j < order.len() ==> ys[#[trigger] order[i] as int] > ys[#[trigger] order[j] as int]
            || (ys[order[i] as int] == ys[order[j] as int] && order[i] < order[j])
}

/// The order in which a chunk's sections are read: by height, highest first,
/// sections of equal height in stored order.
pub fn section_order(raws: &Vec<RawSection>) -> (order: Vec<usize>)
    ensures
        is_descending_order(section_heights(raws@), order@),
{
    let ghost ys = section_heights(raws@);
    let mut order: Vec<usize> = Vec::new();
    let mut k: usize = 0;
    while k < raws.len()
        invariant
            ys == section_heights(raws@),
            k <= raws@.len(),
            order@.len() == k,
            forall|i: int| 0 <= i < order@.len() ==> #[trigger] order@[i] < k,
            forall|m: int| 0 <= m < k ==> #[trigger] lists(order@, m),
            forall|i: int, j: int|
                0 <= i < j < order@.len() ==> ys[#[trigger] order@[i] as int] > ys[#[trigger] order@[j] as int]
                    || (ys[order@[i] as int] == ys[order@[j] as int] && order@[i] < order@[j]),
        decreases raws@.len() - k,
    {
        let yk = raws[k].y;
        let mut p: usize = 0;
        while p < order.len() && raws[order[p]].y >= yk
            invariant
                ys == section_heights(raws@),
                k < raws@.len(),
                yk == ys[k as int],
                p <= order@.len(),
                order@.len() == k,
                forall|i: int| 0 <= i < order@.len() ==> #[trigger] order@[i] < k,
                forall|i: int| 0 <= i < p ==> ys[#[trigger] order@[i] as int] >= yk,
            decreases order@.len() - p,
        {
            p = p + 1;
        }
        let ghost before = order@;
        proof {
            assert forall|i: int| p <= i < before.len() implies ys[#[trigger] before[i] as int] < yk by {
                assert(ys[before[p as int] as int] < yk);
                if i > p {
                    assert(ys[before[p as int] as int] >= ys[before[i] as int]);
                }
            }
        }
        order.insert(p, k);
        proof {
            assert(order@[p as int] == k);
            assert forall|m: int| 0 <= m < k + 1 implies #[trigger] lists(order@, m) by {
                if m < k {
                    assert(lists(before, m));
                    let i0 = choose|i: int| 0 <= i < before.len() && before[i] == m;
                    if i0 < p {
                        assert(order@[i0] == m);
                    } else {
                        assert(order@[i0 + 1] == m);
                    }
                } else {
                    assert(order@[p as int] == m);
                }
            }
            assert forall|i: int| 0 <= i < order@.len() implies #[trigger] order@[i] < k + 1 by {
                if i < p {
                    assert(order@[i] == before[i]);
                } else if i > p {
                    assert(order@[i] == before[i - 1]);
                }
            }
            assert forall|i: int, j: int|
                0 <= i < j < order@.len() implies ys[#[trigger] order@[i] as int] > ys[#[trigger] order@[j] as int]
                    || (ys[order@[i] as int] == ys[order@[j] as int] && order@[i] < order@[j]) by {
                if j < p {
                    assert(order@[i] == before[i] && order@[j] == before[j]);
                } else if j == p {
                    assert(order@[i] == before[i]);
                } else if i == p {
                    assert(order@[j] == before[j - 1]);
                } else if i < p {
                    assert(order@[i] == before[i] && order@[j] == before[j - 1]);
                } else {
                    assert(order@[i] == before[i - 1] && order@[j] == before[j - 1]);
                }
            }
        }
        k = k + 1;
    }
    order
}

/// The character sequences of a list of names, as a set.
pub open spec fn name_set(v: Seq<String>) -> Set<Seq<char>> {
    Set::new(|n: Seq<char>| exists|i: int| 0 <= i < v.len() && #[trigger] v[i]@ == n)
}

/// No name occurs twice in the list.
pub open spec fn distinct_names(v: Seq<String>) -> bool {
    forall|i: int, j: int| 0 <= i < j < v.len() ==> (#[trigger] v[i])@ != (#[trigger] v[j])@
}

/// The names of a list that have no colour.
pub open spec fn unmapped_in(names: Seq<String>, colors: Seq<(Seq<char>, [u8; 3])>) -> Set<Seq<char>> {
    name_set(names).filter(|n: Seq<char>| is_unmapped_name(n, colors))
}

/// The block-state names of a stored section (none without block states).
pub open spec fn raw_names(raw: RawSection) -> Seq<String> {
    match raw.block_states {
        Some(bs) => bs.palette@,
        None => Seq::empty(),
    }
}

/// A list of names as character sequences, in order.
pub open spec fn string_views(v: Seq<String>) -> Seq<Seq<char>> {
    v.map_values(|n: String| n@)
}

/// The names of the sections that `order` lists, one section after another.
pub open spec fn names_in_order(raws: Seq<RawSection>, order: Seq<usize>) -> Seq<Seq<char>>
    decreases order.len(),
{
    if order.len() == 0 {
        Seq::empty()
    } else {
        names_in_order(raws, order.drop_last()) + string_views(raw_names(raws[order.last() as int]))
    }
}

/// The packed data of a stored section.
pub open spec fn raw_data(raw: RawSection) -> Option<Seq<i64>> {
    match raw.block_states {
        Some(bs) => match bs.data {
            Some(d) => Some(d@),
            None => None,
        },
        None => None,
    }
}

/// `sec` is `raw` with each block-state name resolved through `colors`.
pub open spec fn resolves_to(sec: Section, raw: RawSection, colors: Seq<(Seq<char>, [u8; 3])>) -> bool {
    &&& sec.y == raw.y
    &&& sec.palette@ == raw_names(raw).map_values(|n: String| block_for_name(n@, colors))
    &&& sec.data_view() == raw_data(raw)
}

/// How the names newly recorded as missing relate to the record before and
/// after: the list holds, each once, exactly the names the record gained.
pub open spec fn reports_new_names(
    new_before: Seq<String>,
    new_after: Seq<String>,
    missing_before: Set<Seq<char>>,
    missing_after: Set<Seq<char>>,
) -> bool {
    &&& distinct_names(new_after)
    &&& new_after.len() >= new_before.len()
    &&& new_after.subrange(0, new_before.len() as int) == new_before
    &&& name_set(new_after) == name_set(new_before).union(missing_after.difference(missing_before))
}

fn copy_words(words: &Vec<i64>) -> (copy: Vec<i64>)
    ensures
        copy@ == words@,
{
    let mut copy: Vec<i64> = Vec::new();
    let mut i: usize = 0;
    while i < words.len()
        invariant
            i <= words@.len(),
            copy@ == words@.take(i as int),
        decreases words@.len() - i,
    {
        copy.push(words[i]);
        i = i + 1;
        assert(copy@ =~= words@.take(i as int));
    }
    assert(words@.take(i as int) =~= words@);
    copy
}

/// Resolves the block-state names of one stored section. Names without a
/// colour are recorded in `missing`; those recorded for the first time are
/// appended to `new_names` in palette order.
pub fn resolve_section(
    raw: &RawSection,
    colors: &BlockColors,
    missing: &mut MissingBlocks,
    new_names: &mut Vec<String>,
) -> (sec: Section)
    requires
        distinct_names(old(new_names)@),
        name_set(old(new_names)@).subset_of(old(missing)@),
    ensures
        resolves_to(sec, *raw, colors@),
        final(missing)@ == old(missing)@.union(unmapped_in(raw_names(*raw), colors@)),
        reports_new_names(old(new_names)@, final(new_names)@, old(missing)@, final(missing)@),
        name_set(final(new_names)@).subset_of(final(missing)@),
        final(missing)@ == missing_after(old(missing)@, string_views(raw_names(*raw)), colors@),
        string_views(final(new_names)@) == string_views(old(new_names)@) + reported_names(
            old(missing)@,
            string_views(raw_names(*raw)),
            colors@,
        ),
{
    let ghost names = raw_names(*raw);
    let ghost nv = string_views(names);
    let ghost missing0 = missing@;
    let ghost new0 = new_names@;
    let mut palette: Vec<Block> = Vec::new();
    let data = match &raw.block_states {
        None => None,
        Some(bs) => {
            let mut i: usize = 0;
            proof {
                assert(new_names@.subrange(0, new0.len() as int) =~= new0);
                assert(missing@.difference(missing0) =~= Set::empty());
                assert(name_set(new_names@) =~= name_set(new0).union(missing@.difference(missing0)));
                assert(unmapped_in(names.take(0), colors@) =~= Set::empty());
                assert(missing@ =~= missing0.union(unmapped_in(names.take(0), colors@)));
                assert(palette@ =~= names.take(0).map_values(|n: String| block_for_name(n@, colors@)));
                assert(nv.take(0) =~= Seq::<Seq<char>>::empty());
                assert(string_views(new_names@) =~= string_views(new0) + Seq::<Seq<char>>::empty());
            }
            while i < bs.palette.len()
                invariant
                    names == bs.palette@,
                    i <= names.len(),
                    palette@ == names.take(i as int).map_values(|n: String| block_for_name(n@, colors@)),
                    missing@ == missing0.union(unmapped_in(names.take(i as int), colors@)),
                    reports_new_names(new0, new_names@, missing0, missing@),
                    name_set(new_names@).subset_of(missing@),
                    missing0.subset_of(missing@),
                    nv == string_views(names),
                    missing@ == missing_after(missing0, nv.take(i as int), colors@),
                    string_views(new_names@) == string_views(new0) + reported_names(missing0, nv.take(i as int), colors@),
                decreases names.len() - i,
            {
                let ghost missing_prev = missing@;
                let ghost new_prev = new_names@;
                let (block, added) = parse_block_name(bs.palette[i].as_str(), colors, missing);
                palette.push(block);
                if added {
                    new_names.push(bs.palette[i].clone());
                }
                proof {
                    let n = names[i as int]@;
                    assert(bs.palette[i as int]@ == n);
                    assert(nv.take(i + 1).drop_last() =~= nv.take(i as int));
                    assert(nv.take(i + 1).last() == n);
                    let p = string_views(new0);
                    let q = reported_names(missing0, nv.take(i as int), colors@);
                    if added {
                        assert(string_views(new_names@) =~= string_views(new_prev).push(n));
                        assert((p + q).push(n) =~= p + q.push(n));
                    } else {
                        assert(string_views(new_names@) =~= string_views(new_prev));
                    }
                    assert(names.take(i + 1).drop_last() =~= names.take(i as int));
                    assert(palette@ =~= names.take(i + 1).map_values(|n: String| block_for_name(n@, colors@)));
                    assert(name_set(names.take(i + 1)) =~= name_set(names.take(i as int)).insert(n)) by {
                        assert forall|m: Seq<char>| name_set(names.take(i + 1)).contains(m) implies
                            name_set(names.take(i as int)).insert(n).contains(m) by {
                            let j = choose|j: int| 0 <= j < names.take(i + 1).len() && #[trigger] names.take(i + 1)[j]@ == m;
                            if j < i {
                                assert(names.take(i as int)[j]@ == m);
                            }
                        }
                        assert forall|m: Seq<char>| name_set(names.take(i as int)).insert(n).contains(m) implies
                            name_set(names.take(i + 1)).contains(m) by {
                            if m == n {
                                assert(names.take(i + 1)[i as int]@ == m);
                            } else {
                                let j = choose|j: int| 0 <= j < names.take(i as int).len() && #[trigger] names.take(i as int)[j]@ == m;
                                assert(names.take(i + 1)[j]@ == m);
                            }
                        }
                    }
                    assert(missing@ =~= missing0.union(unmapped_in(names.take(i + 1), colors@)));
                    if added {
                        let nn = new_names@;
                        assert(nn[new_prev.len() as int]@ == n);
                        assert(!missing_prev.contains(n));
                        assert forall|a: int, b: int| 0 <= a < b < nn.len() implies (#[trigger] nn[a])@ != (#[trigger] nn[b])@ by {
                            if b == new_prev.len() {
                                assert(name_set(new_prev).contains(nn[a]@));
                            } else {
                                assert(nn[a] == new_prev[a] && nn[b] == new_prev[b]);
                            }
                        }
                        assert(nn.subrange(0, new0.len() as int) =~= new0) by {
                            assert(new_prev.subrange(0, new0.len() as int) == new0);
                            assert forall|a: int| 0 <= a < new0.len() implies nn[a] == new0[a] by {
                                assert(nn[a] == new_prev[a]);
                                assert(new_prev.subrange(0, new0.len() as int)[a] == new0[a]);
                            }
                        }
                        assert(name_set(nn) =~= name_set(new_prev).insert(n)) by {
                            assert forall|m: Seq<char>| name_set(nn).contains(m) implies name_set(new_prev).insert(n).contains(m) by {
                                let j = choose|j: int| 0 <= j < nn.len() && #[trigger] nn[j]@ == m;
                                if j < new_prev.len() {
                                    assert(new_prev[j]@ == m);
                                }
                            }
                            assert forall|m: Seq<char>| name_set(new_prev).insert(n).contains(m) implies name_set(nn).contains(m) by {
                                if m == n {
                                    assert(nn[new_prev.len() as int]@ == m);
                                } else {
                                    let j = choose|j: int| 0 <= j < new_prev.len() && #[trigger] new_prev[j]@ == m;
                                    assert(nn[j]@ == m);
                                }
                            }
                        }
                        assert(name_set(nn) =~= name_set(new0).union(missing@.difference(missing0)));
                    } else {
                        assert(missing@.difference(missing0) =~= missing_prev.difference(missing0));
                    }
                }
                i = i + 1;
            }
            assert(names.take(i as int) =~= names);
            assert(nv.take(i as int) =~= nv);
            match &bs.data {
                None => None,
                Some(words) => Some(copy_words(words)),
            }
        },
    };
    proof {
        if raw.block_states is None {
            assert(unmapped_in(names, colors@) =~= Set::empty());
            assert(missing@ =~= missing0.union(unmapped_in(names, colors@)));
            assert(palette@ =~= names.map_values(|n: String| block_for_name(n@, colors@)));
            assert(new_names@.subrange(0, new0.len() as int) =~= new0);
            assert(name_set(new_names@) =~= name_set(new0).union(missing@.difference(missing0)));
            assert(nv =~= Seq::<Seq<char>>::empty());
            assert(string_views(new_names@) =~= string_views(new0) + Seq::<Seq<char>>::empty());
        }
    }
    Section { y: raw.y, palette, data }
}

/// The 16x16 columns of a chunk as seen from above, cell (x, z) at index
/// `z * 16 + x`: top block colour, top height and water depth.
pub struct ChunkColumns {
    pub colors: Vec<[u8; 3]>,
    pub heights: Vec<i16>,
    pub depths: Vec<i16>,
}

/// Cell `k` of the column arrays holds what column (k % 16, k / 16) of the
/// sections `secs` shows from above; a column of nothing but air keeps the
/// background `[30, 30, 30]`, height -64 and depth 0.
pub open spec fn column_cell(
    colors: Seq<[u8; 3]>,
    heights: Seq<i16>,
    depths: Seq<i16>,
    secs: Seq<Section>,
    nether: bool,
    k: int,
) -> bool {
    match column_top(secs, (k % 16) as nat, (k / 16) as nat, nether) {
        Some(t) => colors[k] == t.color && heights[k] == t.y && depths[k] == t.water_depth,
        None => colors[k] == [30u8, 30u8, 30u8] && heights[k] == -64 && depths[k] == 0,
    }
}

/// `cols` holds the top colour, height and water depth of every column of
/// the sections `secs`.
pub open spec fn columns_of(cols: ChunkColumns, secs: Seq<Section>, nether: bool) -> bool {
    &&& cols.colors@.len() == 256
    &&& cols.heights@.len() == 256
    &&& cols.depths@.len() == 256
    &&& forall|k: int| 0 <= k < 256 ==> #[trigger] column_cell(cols.colors@, cols.heights@, cols.depths@, secs, nether, k)
}

impl ChunkColumns {
    /// 256 cells, every height within the world's range and no water depth negative.
    pub open spec fn in_range(&self) -> bool {
        &&& self.colors@.len() == 256
        &&& self.heights@.len() == 256
        &&& self.depths@.len() == 256
        &&& forall|k: int| 0 <= k < 256 ==> -2048 <= #[trigger] self.heights@[k] <= 2047
        &&& forall|k: int| 0 <= k < 256 ==> #[trigger] self.depths@[k] >= 0
    }
}

/// Some column of the chunk holds more water at its top than an `i16` counts.
pub open spec fn some_column_too_deep(secs: Seq<Section>, nether: bool) -> bool {
    exists|k: int| 0 <= k < 256 && !#[trigger] column_fits(secs, (k % 16) as nat, (k / 16) as nat, nether)
}

/// Reads all 256 columns of a chunk; fails when a column holds more water
/// at its top than an `i16` counts.
pub fn chunk_columns(secs: &Vec<Section>, nether: bool) -> (res: Result<ChunkColumns, WaterTooDeep>)
    requires
        scannable(secs@),
    ensures
        res is Err <==> some_column_too_deep(secs@, nether),
        res matches Ok(cols) ==> columns_of(cols, secs@, nether) && cols.in_range(),
{
    let mut colors: Vec<[u8; 3]> = Vec::new();
    let mut heights: Vec<i16> = Vec::new();
    let mut depths: Vec<i16> = Vec::new();
    let mut i: usize = 0;
    while i < 256
        invariant
            scannable(secs@),
            i <= 256,
            colors@.len() == i,
            heights@.len() == i,
            depths@.len() == i,
            forall|k: int| 0 <= k < i ==> #[trigger] column_cell(colors@, heights@, depths@, secs@, nether, k),
            forall|k: int| 0 <= k < i ==> -2048 <= #[trigger] heights@[k] <= 2047,
            forall|k: int| 0 <= k < i ==> #[trigger] depths@[k] >= 0,
            forall|k: int| 0 <= k < i ==> #[trigger] column_fits(secs@, (k % 16) as nat, (k / 16) as nat, nether),
        decreases 256 - i,
    {
        let ghost (c0, h0, d0) = (colors@, heights@, depths@);
        let scanned = scan_column(secs, i % 16, i / 16, nether);
        let top = match scanned {
            Ok(t) => t,
            Err(e) => {
                assert(!column_fits(secs@, ((i as int) % 16) as nat, ((i as int) / 16) as nat, nether));
                return Err(e);
            },
        };
        proof {
            lemma_column_top_shape(secs@, ((i as int) % 16) as nat, ((i as int) / 16) as nat, nether);
        }
        assert(top == column_top(secs@, ((i as int) % 16) as nat, ((i as int) / 16) as nat, nether));
        match top {
            Some(t) => {
                colors.push(t.color);
                assert(colors@[i as int] == t.color);
                heights.push(t.y);
                depths.push(t.water_depth);
            },
            None => {
                colors.push([30, 30, 30]);
                assert(colors@[i as int] == [30u8, 30u8, 30u8]);
                heights.push(-64);
                depths.push(0);
            },
        }
        proof {
            assert forall|k: int| 0 <= k < i + 1 implies #[trigger] column_cell(colors@, heights@, depths@, secs@, nether, k) by {
                if k < i {
                    assert(colors@[k] == c0[k] && heights@[k] == h0[k] && depths@[k] == d0[k]);
                    assert(column_cell(c0, h0, d0, secs@, nether, k));
                }
            }
            assert forall|k: int| 0 <= k < i + 1 implies -2048 <= #[trigger] heights@[k] <= 2047 by {
                if k < i {
                    assert(heights@[k] == h0[k]);
                }
            }
            assert forall|k: int| 0 <= k < i + 1 implies #[trigger] depths@[k] >= 0 by {
                if k < i {
                    assert(depths@[k] == d0[k]);
                }
            }
        }
        i = i + 1;
    }
    assert(!some_column_too_deep(secs@, nether));
    Ok(ChunkColumns { colors, heights, depths })
}

/// The names of a chunk's stored sections that have no colour.
pub open spec fn chunk_unmapped(raws: Seq<RawSection>, colors: Seq<(Seq<char>, [u8; 3])>) -> Set<Seq<char>> {
    Set::new(|n: Seq<char>| exists|k: int| 0 <= k < raws.len() && #[trigger] unmapped_in(raw_names(raws[k]), colors).contains(n))
}

/// Stored sections whose palettes can be addressed, and whose column cell
/// count fits in `usize`.
pub open spec fn raw_scannable(raws: Seq<RawSection>) -> bool {
    &&& 16 * raws.len() <= usize::MAX
    &&& forall|k: int| 0 <= k < raws.len() ==> raw_names(#[trigger] raws[k]).len() <= 0x8000_0000_0000_0000
}

/// Reads a chunk: orders its sections from the top down, resolves their
/// block names and reads every column, failing when a column holds more
/// water at its top than an `i16` counts. Also returns, each once and in the
/// order the sections from the top down and their palettes meet them, the
/// names recorded as missing for the first time (recorded whether or not the
/// columns could be read).
pub fn process_chunk(
    raws: &Vec<RawSection>,
    colors: &BlockColors,
    missing: &mut MissingBlocks,
    nether: bool,
) -> (res: (Result<ChunkColumns, WaterTooDeep>, Vec<String>))
    requires
        raw_scannable(raws@),
    ensures
        exists|order: Seq<usize>, secs: Seq<Section>| {
            &&& is_descending_order(section_heights(raws@), order)
            &&& secs.len() == order.len()
            &&& (forall|j: int| 0 <= j < secs.len() ==> resolves_to(#[trigger] secs[j], raws@[order[j] as int], colors@))
            &&& (res.0 is Err <==> some_column_too_deep(secs, nether))
            &&& (res.0 matches Ok(cols) ==> columns_of(cols, secs, nether) && cols.in_range())
            &&& string_views(res.1@) == reported_names(old(missing)@, names_in_order(raws@, order), colors@)
        },
        final(missing)@ == old(missing)@.union(chunk_unmapped(raws@, colors@)),
        reports_new_names(Seq::empty(), res.1@, old(missing)@, final(missing)@),
{
    let order = section_order(raws);
    let ghost missing0 = missing@;
    let mut new_names: Vec<String> = Vec::new();
    let mut secs: Vec<Section> = Vec::new();
    let mut j: usize = 0;
    proof {
        assert(order@.take(0) =~= Seq::<usize>::empty());
        assert(string_views(new_names@) =~= Seq::<Seq<char>>::empty());
        assert(new_names@.subrange(0, 0) =~= new_names@);
        assert(name_set(new_names@) =~= Set::empty());
        assert(name_set(new_names@) =~= name_set(Seq::<String>::empty()).union(missing@.difference(missing0)));
    }
    while j < order.len()
        invariant
            raw_scannable(raws@),
            is_descending_order(section_heights(raws@), order@),
            j <= order@.len(),
            secs@.len() == j,
            forall|jj: int| 0 <= jj < j ==> resolves_to(#[trigger] secs@[jj], raws@[order@[jj] as int], colors@),
            missing@ == missing0.union(Set::new(|n: Seq<char>| exists|jj: int| 0 <= jj < j
                && #[trigger] unmapped_in(raw_names(raws@[order@[jj] as int]), colors@).contains(n))),
            reports_new_names(Seq::empty(), new_names@, missing0, missing@),
            name_set(new_names@).subset_of(missing@),
            missing@ == missing_after(missing0, names_in_order(raws@, order@.take(j as int)), colors@),
            string_views(new_names@) == reported_names(missing0, names_in_order(raws@, order@.take(j as int)), colors@),
        decreases order@.len() - j,
    {
        let ghost m_prev = missing@;
        let ghost n_prev = new_names@;
        assert(order@[j as int] < raws@.len());
        let sec = resolve_section(&raws[order[j]], colors, missing, &mut new_names);
        secs.push(sec);
        proof {
            let done = names_in_order(raws@, order@.take(j as int));
            let here = string_views(raw_names(raws@[order@[j as int] as int]));
            assert(order@.take(j + 1).drop_last() =~= order@.take(j as int));
            assert(order@.take(j + 1).last() == order@[j as int]);
            assert(names_in_order(raws@, order@.take(j + 1)) == done + here);
            lemma_reports_concatenate(missing0, done, here, colors@);
            assert(secs@[j as int] == sec);
            let sj = Set::new(|n: Seq<char>| exists|jj: int| 0 <= jj < j
                && #[trigger] unmapped_in(raw_names(raws@[order@[jj] as int]), colors@).contains(n));
            let sj1 = Set::new(|n: Seq<char>| exists|jj: int| 0 <= jj < j + 1
                && #[trigger] unmapped_in(raw_names(raws@[order@[jj] as int]), colors@).contains(n));
            let u = unmapped_in(raw_names(raws@[order@[j as int] as int]), colors@);
            assert(sj1 =~= sj.union(u)) by {
                assert forall|n: Seq<char>| sj1.contains(n) implies sj.union(u).contains(n) by {
                    let jj = choose|jj: int| 0 <= jj < j + 1
                        && #[trigger] unmapped_in(raw_names(raws@[order@[jj] as int]), colors@).contains(n);
                    if jj < j {
                        assert(sj.contains(n));
                    }
                }
                assert forall|n: Seq<char>| sj.union(u).contains(n) implies sj1.contains(n) by {
                    if u.contains(n) {
                        assert(unmapped_in(raw_names(raws@[order@[j as int] as int]), colors@).contains(n));
                    } else {
                        let jj = choose|jj: int| 0 <= jj < j
                            && #[trigger] unmapped_in(raw_names(raws@[order@[jj] as int]), colors@).contains(n);
                        assert(unmapped_in(raw_names(raws@[order@[jj] as int]), colors@).contains(n));
                    }
                }
            }
            assert(missing@ =~= missing0.union(sj1));
            let nn = new_names@;
            assert(nn.subrange(0, 0) =~= Seq::<String>::empty());
            assert(name_set(nn) =~= name_set(Seq::<String>::empty()).union(missing@.difference(missing0))) by {
                assert(name_set(Seq::<String>::empty()) =~= Set::empty());
                assert(name_set(n_prev) =~= m_prev.difference(missing0));
                assert(name_set(nn) =~= name_set(n_prev).union(missing@.difference(m_prev)));
            }
        }
        j = j + 1;
    }
    proof {
        let all = Set::new(|n: Seq<char>| exists|jj: int| 0 <= jj < order@.len()
            && #[trigger] unmapped_in(raw_names(raws@[order@[jj] as int]), colors@).contains(n));
        assert(all =~= chunk_unmapped(raws@, colors@)) by {
            assert forall|n: Seq<char>| chunk_unmapped(raws@, colors@).contains(n) implies all.contains(n) by {
                let k = choose|k: int| 0 <= k < raws@.len() && #[trigger] unmapped_in(raw_names(raws@[k]), colors@).contains(n);
                assert(lists(order@, k));
                let jj = choose|jj: int| 0 <= jj < order@.len() && order@[jj] == k;
                assert(unmapped_in(raw_names(raws@[order@[jj] as int]), colors@).contains(n));
            }
            assert forall|n: Seq<char>| all.contains(n) implies chunk_unmapped(raws@, colors@).contains(n) by {
                let jj = choose|jj: int| 0 <= jj < order@.len()
                    && #[trigger] unmapped_in(raw_names(raws@[order@[jj] as int]), colors@).contains(n);
                let k = order@[jj] as int;
                assert(unmapped_in(raw_names(raws@[k]), colors@).contains(n));
            }
        }
        assert forall|k: int| 0 <= k < secs@.len() implies (#[trigger] secs@[k]).addressable() by {
            assert(resolves_to(secs@[k], raws@[order@[k] as int], colors@));
            assert(raw_names(raws@[order@[k] as int]).len() <= 0x8000_0000_0000_0000);
        }
    }
    assert(order@.take(order@.len() as int) =~= order@);
    let cols = chunk_columns(&secs, nether);
    (cols, new_names)
}

} // verus!
