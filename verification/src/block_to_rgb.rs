use vstd::prelude::*;
use crate::text::str_eq;

verus! {

/// A block as the renderer sees it.
#[derive(Copy, Clone, Debug, PartialEq, Eq, Hash)]
pub enum Block {
    Air,
    Water,
    BubbleColumn,
    Color([u8; 3]),
}

/// The colour a block is drawn with.
pub open spec fn spec_block_rgb(block: Block) -> [u8; 3] {
    match block {
        Block::Air => [0u8, 0u8, 0u8],
        Block::Water | Block::BubbleColumn => [64u8, 64u8, 255u8],
        Block::Color(rgb) => rgb,
    }
}

/// Colour of a block: black for air, a fixed blue for water and bubble
/// columns, and the block's own colour otherwise.
pub fn block_to_rgb(block: Block) -> (rgb: [u8; 3])
    ensures
        rgb == spec_block_rgb(block),
{
    match block {
        Block::Air => [0, 0, 0],
        Block::Water | Block::BubbleColumn => [64, 64, 255],
        Block::Color(rgb) => rgb,
    }
}


/// Whether a block is water or a bubble column (both render and count as water).
pub open spec fn is_water_like(block: Block) -> bool {
    block is Water || block is BubbleColumn
}

/// Whether a block is air.
pub fn is_air(block: Block) -> (air: bool)
    ensures
        air == (block is Air),
{
    match block {
        Block::Air => true,
        _ => false,
    }
}

/// Whether a block is water or a bubble column.
pub fn is_water(block: Block) -> (water: bool)
    ensures
        water == is_water_like(block),
{
    match block {
        Block::Water | Block::BubbleColumn => true,
        _ => false,
    }
}

/// The entries serde_json reads from a JSON object that maps block names to
/// `[r, g, b]` colours, in the key order of a `BTreeMap` (a later duplicate key
/// replacing an earlier one); `None` when the text is not such an object.
pub uninterp spec fn json_color_entries(text: Seq<char>) -> Option<Seq<(Seq<char>, [u8; 3])>>;

/// Calls `serde_json::from_str` to read `text` as a map from block names to
/// colours. Claimed: the entries returned are `json_color_entries(text)`,
/// and `None` comes back exactly when that is `None`.
#[verifier::external_body]
fn parse_color_entries(text: &str) -> (entries: Option<Vec<(String, [u8; 3])>>)
    ensures
        match entries {
            None => json_color_entries(text@) is None,
            Some(v) => json_color_entries(text@) == Some(color_entries_view(v@)),
        },
{
    match serde_json::from_str::<std::collections::BTreeMap<String, [u8; 3]>>(text) {
        Ok(map) => Some(map.into_iter().collect()),
        Err(_) => None,
    }
}

/// The names of a list of (name, colour) entries taken as character sequences.
pub open spec fn color_entries_view(v: Seq<(String, [u8; 3])>) -> Seq<(Seq<char>, [u8; 3])> {
    v.map_values(|e: (String, [u8; 3])| (e.0@, e.1))
}

/// The colour that a table of (name, colour) entries gives a name: the
/// colour of its last entry with that name, if there is one.
pub open spec fn color_lookup(entries: Seq<(Seq<char>, [u8; 3])>, name: Seq<char>) -> Option<[u8; 3]>
    decreases entries.len(),
{
    if entries.len() == 0 {
        None
    } else if entries.last().0 == name {
        Some(entries.last().1)
    } else {
        color_lookup(entries.drop_last(), name)
    }
}

/// Table of block colours by block name.
pub struct BlockColors {
    entries: Vec<(String, [u8; 3])>,
}

impl View for BlockColors {
    type V = Seq<(Seq<char>, [u8; 3])>;

    closed spec fn view(&self) -> Self::V {
        color_entries_view(self.entries@)
    }
}

impl BlockColors {
    /// An empty table.
    pub fn new() -> (colors: Self)
        ensures
            colors@ == Seq::<(Seq<char>, [u8; 3])>::empty(),
    {
        let colors = BlockColors { entries: Vec::new() };
        assert(colors@ =~= Seq::<(Seq<char>, [u8; 3])>::empty());
        colors
    }

    /// The table read from the JSON text of a colour file; an empty table when
    /// the text is not a JSON object of names to `[r, g, b]` colours.
    pub fn from_json(text: &str) -> (colors: Self)
        ensures
            colors@ == match json_color_entries(text@) {
                Some(e) => e,
                None => Seq::empty(),
            },
    {
        match parse_color_entries(text) {
            Some(entries) => BlockColors { entries },
            None => BlockColors::new(),
        }
    }

    /// The table of the given (name, colour) entries, a later entry for a name
    /// taking precedence over an earlier one.
    pub fn from_entries(entries: Vec<(String, [u8; 3])>) -> (colors: Self)
        ensures
            colors@ == color_entries_view(entries@),
    {
        BlockColors { entries }
    }

    /// Number of entries in the table.
    pub fn len(&self) -> (n: usize)
        ensures
            n == self@.len(),
    {
        self.entries.len()
    }

    /// The colour the table gives `name`.
    pub fn lookup(&self, name: &str) -> (color: Option<[u8; 3]>)
        ensures
            color == color_lookup(self@, name@),
    {
        let mut i = self.entries.len();
        assert(self@.take(i as int) =~= self@);
        while i > 0
            invariant
                i <= self.entries@.len(),
                self@.len() == self.entries@.len(),
                color_lookup(self@, name@) == color_lookup(self@.take(i as int), name@),
            decreases i,
        {
            let ghost prefix = self@.take(i as int);
            assert(prefix.last() == self@[i - 1]);
            assert(prefix.drop_last() =~= self@.take(i - 1));
            if str_eq(self.entries[i - 1].0.as_str(), name) {
                return Some(self.entries[i - 1].1);
            }
            i = i - 1;
        }
        None
    }
}

/// Names already reported as having no colour.
pub struct MissingBlocks {
    names: Vec<String>,
}

impl View for MissingBlocks {
    type V = Set<Seq<char>>;

    closed spec fn view(&self) -> Self::V {
        Set::new(|n: Seq<char>| exists|i: int| 0 <= i < self.names@.len() && #[trigger] self.names@[i]@ == n)
    }
}

impl MissingBlocks {
    /// No names reported yet.
    pub fn new() -> (missing: Self)
        ensures
            missing@ == Set::<Seq<char>>::empty(),
    {
        let missing = MissingBlocks { names: Vec::new() };
        assert(missing@ =~= Set::<Seq<char>>::empty());
        missing
    }

    /// Whether `name` has been reported.
    pub fn contains(&self, name: &str) -> (found: bool)
        ensures
            found == self@.contains(name@),
    {
        let mut i: usize = 0;
        while i < self.names.len()
            invariant
                i <= self.names@.len(),
                forall|j: int| 0 <= j < i ==> self.names@[j]@ != name@,
            decreases self.names@.len() - i,
        {
            if str_eq(self.names[i].as_str(), name) {
                assert(self@.contains(name@));
                return true;
            }
            i = i + 1;
        }
        false
    }

    /// Records `name`; true when it was not recorded before.
    pub fn insert(&mut self, name: &str) -> (added: bool)
        ensures
            added == !old(self)@.contains(name@),
            final(self)@ == old(self)@.insert(name@),
    {
        if self.contains(name) {
            assert(self@ =~= self@.insert(name@));
            return false;
        }
        let ghost before = self.names@;
        self.names.push(name.to_owned());
        proof {
            assert(self.names@[before.len() as int]@ == name@);
            assert forall|n: Seq<char>| self@.contains(n) == old(self)@.insert(name@).contains(n) by {
                if self@.contains(n) {
                    let i = choose|i: int| 0 <= i < self.names@.len() && #[trigger] self.names@[i]@ == n;
                    if i < before.len() {
                        assert(before[i]@ == n);
                    }
                }
                if old(self)@.contains(n) {
                    let i = choose|i: int| 0 <= i < before.len() && #[trigger] before[i]@ == n;
                    assert(self.names@[i]@ == n);
                }
            }
            assert(self@ =~= old(self)@.insert(name@));
        }
        true
    }
}

/// Whether a name stands for one of the three kinds of air.
pub open spec fn is_air_name(name: Seq<char>) -> bool {
    name == "minecraft:air"@ || name == "minecraft:cave_air"@ || name == "minecraft:void_air"@
}

/// The block a block-state name stands for: air, water and bubble columns by
/// their names, the table's colour for any other name, and magenta
/// (`[255, 0, 255]`) for a name the table does not know.
pub open spec fn block_for_name(name: Seq<char>, colors: Seq<(Seq<char>, [u8; 3])>) -> Block {
    if is_air_name(name) {
        Block::Air
    } else if name == "minecraft:water"@ {
        Block::Water
    } else if name == "minecraft:bubble_column"@ {
        Block::BubbleColumn
    } else {
        match color_lookup(colors, name) {
            Some(c) => Block::Color(c),
            None => Block::Color([255u8, 0u8, 255u8]),
        }
    }
}

/// Whether a name falls back to the missing-colour magenta.
pub open spec fn is_unmapped_name(name: Seq<char>, colors: Seq<(Seq<char>, [u8; 3])>) -> bool {
    !is_air_name(name) && name != "minecraft:water"@ && name != "minecraft:bubble_column"@
        && color_lookup(colors, name) is None
}

/// Resolves a block-state name to a block. A name without a colour is
/// recorded in `missing`; the flag returned is true when it was recorded
/// just now for the first time, so that it is reported once.
pub fn parse_block_name(name: &str, colors: &BlockColors, missing: &mut MissingBlocks) -> (res: (Block, bool))
    ensures
        res.0 == block_for_name(name@, colors@),
        res.1 == (is_unmapped_name(name@, colors@) && !old(missing)@.contains(name@)),
        final(missing)@ == if is_unmapped_name(name@, colors@) {
            old(missing)@.insert(name@)
        } else {
            old(missing)@
        },
{
    if str_eq(name, "minecraft:air") || str_eq(name, "minecraft:cave_air") || str_eq(name, "minecraft:void_air") {
        return (Block::Air, false);
    }
    if str_eq(name, "minecraft:water") {
        return (Block::Water, false);
    }
    if str_eq(name, "minecraft:bubble_column") {
        return (Block::BubbleColumn, false);
    }
    match colors.lookup(name) {
        Some(color) => (Block::Color(color), false),
        None => {
            let added = missing.insert(name);
            (Block::Color([255, 0, 255]), added)
        },
    }
}

/// A name without a colour is reported once: after it has been resolved,
/// resolving it again records nothing new.
pub proof fn lemma_missing_reported_once(
    missing: Set<Seq<char>>,
    name: Seq<char>,
    colors: Seq<(Seq<char>, [u8; 3])>,
)
    ensures
        ({
            let after = if is_unmapped_name(name, colors) { missing.insert(name) } else { missing };
            !(is_unmapped_name(name, colors) && !after.contains(name))
                && (if is_unmapped_name(name, colors) { after.insert(name) } else { after }) == after
        }),
{
    let after = if is_unmapped_name(name, colors) { missing.insert(name) } else { missing };
    if is_unmapped_name(name, colors) {
        assert(after.insert(name) =~= after);
    }
}

/// The names recorded as missing after `parse_block_name` has been called on
/// each of `names` in turn, starting from the record `missing`.
pub open spec fn missing_after(
    missing: Set<Seq<char>>,
    names: Seq<Seq<char>>,
    colors: Seq<(Seq<char>, [u8; 3])>,
) -> Set<Seq<char>>
    decreases names.len(),
{
    if names.len() == 0 {
        missing
    } else {
        let before = missing_after(missing, names.drop_last(), colors);
        if is_unmapped_name(names.last(), colors) {
            before.insert(names.last())
        } else {
            before
        }
    }
}

/// The flag that the call on `names[i]` returns in that sequence of calls:
/// whether that call reports its name.
pub open spec fn reported_at(
    missing: Set<Seq<char>>,
    names: Seq<Seq<char>>,
    colors: Seq<(Seq<char>, [u8; 3])>,
    i: int,
) -> bool {
    is_unmapped_name(names[i], colors) && !missing_after(missing, names.take(i), colors).contains(names[i])
}

proof fn lemma_missing_after_contains(
    missing: Set<Seq<char>>,
    names: Seq<Seq<char>>,
    colors: Seq<(Seq<char>, [u8; 3])>,
    n: Seq<char>,
)
    ensures
        missing_after(missing, names, colors).contains(n) <==> missing.contains(n) || (is_unmapped_name(n, colors)
            && exists|j: int| 0 <= j < names.len() && names[j] == n),
    decreases names.len(),
{
    if names.len() > 0 {
        let init = names.drop_last();
        lemma_missing_after_contains(missing, init, colors, n);
        if exists|j: int| 0 <= j < names.len() && names[j] == n {
            let j = choose|j: int| 0 <= j < names.len() && names[j] == n;
            if j < names.len() - 1 {
                assert(init[j] == n);
            }
        }
        if exists|j: int| 0 <= j < init.len() && init[j] == n {
            let j = choose|j: int| 0 <= j < init.len() && init[j] == n;
            assert(names[j] == n);
        }
    }
}

/// Over any sequence of calls of `parse_block_name`, a name is reported by
/// the call on its first occurrence when it has no colour and was not
/// recorded before the sequence, and by no other call: every such name is
/// reported exactly once, and no other name is reported.
pub proof fn lemma_each_missing_name_reported_once(
    missing: Set<Seq<char>>,
    names: Seq<Seq<char>>,
    colors: Seq<(Seq<char>, [u8; 3])>,
)
    ensures
        forall|i: int| 0 <= i < names.len() ==> (#[trigger] reported_at(missing, names, colors, i) <==> {
            &&& is_unmapped_name(names[i], colors)
            &&& !missing.contains(names[i])
            &&& forall|j: int| 0 <= j < i ==> names[j] != names[i]
        }),
        forall|i: int, j: int|
            0 <= i < names.len() && 0 <= j < names.len() && #[trigger] reported_at(missing, names, colors, i)
                && #[trigger] reported_at(missing, names, colors, j) && names[i] == names[j] ==> i == j,
        forall|i: int|
            0 <= i < names.len() && is_unmapped_name(#[trigger] names[i], colors) && !missing.contains(names[i])
                ==> exists|j: int| 0 <= j <= i && names[j] == names[i] && #[trigger] reported_at(missing, names, colors, j),
{
    assert forall|i: int| 0 <= i < names.len() implies (#[trigger] reported_at(missing, names, colors, i) <==> {
        &&& is_unmapped_name(names[i], colors)
        &&& !missing.contains(names[i])
        &&& forall|j: int| 0 <= j < i ==> names[j] != names[i]
    }) by {
        let pre = names.take(i);
        lemma_missing_after_contains(missing, pre, colors, names[i]);
        if exists|j: int| 0 <= j < pre.len() && pre[j] == names[i] {
            let j = choose|j: int| 0 <= j < pre.len() && pre[j] == names[i];
            assert(names[j] == names[i]);
        }
        if exists|j: int| 0 <= j < i && names[j] == names[i] {
            let j = choose|j: int| 0 <= j < i && names[j] == names[i];
            assert(pre[j] == names[i]);
        }
    }
    assert forall|i: int|
        0 <= i < names.len() && is_unmapped_name(#[trigger] names[i], colors) && !missing.contains(names[i])
        implies exists|j: int| 0 <= j <= i && names[j] == names[i] && #[trigger] reported_at(missing, names, colors, j) by {
        lemma_first_occurrence(names, i);
        let first = choose|j: int| 0 <= j <= i && names[j] == names[i] && forall|k: int| 0 <= k < j ==> names[k] != names[i];
        assert(reported_at(missing, names, colors, first));
    }
}

proof fn lemma_first_occurrence(names: Seq<Seq<char>>, i: int)
    requires
        0 <= i < names.len(),
    ensures
        exists|j: int| 0 <= j <= i && names[j] == names[i] && forall|k: int| 0 <= k < j ==> names[k] != names[i],
    decreases i,
{
    if exists|k: int| 0 <= k < i && names[k] == names[i] {
        let k = choose|k: int| 0 <= k < i && names[k] == names[i];
        lemma_first_occurrence(names, k);
        let j = choose|j: int| 0 <= j <= k && names[j] == names[k] && forall|m: int| 0 <= m < j ==> names[m] != names[k];
        assert(0 <= j <= i && names[j] == names[i] && forall|m: int| 0 <= m < j ==> names[m] != names[i]);
    } else {
        assert(0 <= i <= i && names[i] == names[i] && forall|m: int| 0 <= m < i ==> names[m] != names[i]);
    }
}

/// The names that the calls of `parse_block_name` on `names` in turn report,
/// in the order of the calls, starting from the record `missing`.
pub open spec fn reported_names(
    missing: Set<Seq<char>>,
    names: Seq<Seq<char>>,
    colors: Seq<(Seq<char>, [u8; 3])>,
) -> Seq<Seq<char>>
    decreases names.len(),
{
    if names.len() == 0 {
        Seq::empty()
    } else {
        let before = reported_names(missing, names.drop_last(), colors);
        if is_unmapped_name(names.last(), colors) && !missing_after(missing, names.drop_last(), colors).contains(
            names.last(),
        ) {
            before.push(names.last())
        } else {
            before
        }
    }
}

/// Calls on `a` and then on `b` record and report what calls on `a + b` do.
pub proof fn lemma_reports_concatenate(
    missing: Set<Seq<char>>,
    a: Seq<Seq<char>>,
    b: Seq<Seq<char>>,
    colors: Seq<(Seq<char>, [u8; 3])>,
)
    ensures
        missing_after(missing, a + b, colors) == missing_after(missing_after(missing, a, colors), b, colors),
        reported_names(missing, a + b, colors) == reported_names(missing, a, colors) + reported_names(
            missing_after(missing, a, colors),
            b,
            colors,
        ),
    decreases b.len(),
{
    if b.len() == 0 {
        assert(a + b =~= a);
        assert(reported_names(missing, a, colors) + Seq::<Seq<char>>::empty() =~= reported_names(missing, a, colors));
    } else {
        let b0 = b.drop_last();
        lemma_reports_concatenate(missing, a, b0, colors);
        assert((a + b).drop_last() =~= a + b0);
        assert((a + b).last() == b.last());
        let p = reported_names(missing, a, colors);
        let q = reported_names(missing_after(missing, a, colors), b0, colors);
        assert((p + q).push(b.last()) =~= p + q.push(b.last()));
    }
}

} // verus!
