use vstd::prelude::*;
use vstd::arithmetic::power2::{
    pow2, lemma_pow2_pos, lemma_pow2_unfold, lemma_pow2_strictly_increases, lemma2_to64,
};
use vstd::arithmetic::div_mod::{
    lemma_div_denominator, lemma_fundamental_div_mod, lemma_fundamental_div_mod_converse_div,
    lemma_fundamental_div_mod_converse_mod,
};
use vstd::bits::{
    low_bits_mask, lemma_u64_shr_is_div, lemma_u64_low_bits_mask_is_mod,
    lemma_u64_pow2_no_overflow, lemma_u64_shl_is_mul,
};
use crate::block_to_rgb::Block;

verus! {

/// Number of bits needed to tell `n` values apart (`⌈log2 n⌉`, and 0 for `n <= 1`).
pub open spec fn ceil_log2(n: nat) -> nat
    decreases n,
{
    if n <= 1 {
        0
    } else {
        1 + ceil_log2(((n + 1) / 2) as nat)
    }
}

/// Width of one packed palette index for a palette of `len` entries:
/// enough bits to address every entry, and never fewer than 4.
pub open spec fn palette_bits(len: nat) -> nat {
    if ceil_log2(len) < 4 {
        4
    } else {
        ceil_log2(len)
    }
}

/// The `bits`-wide field that starts `offset` bits from the low end of `word`.
pub open spec fn packed_field(word: i64, offset: nat, bits: nat) -> nat {
    ((word as u64) as nat / pow2(offset)) % pow2(bits)
}

/// Palette index number `index` in a packed long array: each long holds
/// `64 / bits` indices from its low bits upwards, and no index spans two longs.
/// `None` when the long that would hold it lies past the end of `words`.
pub open spec fn packed_index(words: Seq<i64>, bits: nat, index: nat) -> Option<nat>
    recommends
        0 < bits <= 64,
{
    let per_word: nat = 64nat / bits;
    let word = index / per_word;
    if word < words.len() {
        Some(packed_field(words[word as int], (index % per_word) * bits, bits))
    } else {
        None
    }
}

/// Position of block (x, y, z) of a section in its block order (y, then z, then x).
pub open spec fn block_order(x: nat, y: nat, z: nat) -> nat {
    y * 256 + z * 16 + x
}

/// The block at (x, y, z) of a section with the given palette and packed data:
/// air for an empty palette, the first palette entry when there is no data,
/// and air when the packed index is missing or points past the palette.
pub open spec fn section_block_at(
    palette: Seq<Block>,
    data: Option<Seq<i64>>,
    x: nat,
    y: nat,
    z: nat,
) -> Block {
    if palette.len() == 0 {
        Block::Air
    } else {
        match data {
            None => palette[0],
            Some(words) => match packed_index(words, palette_bits(palette.len()), block_order(x, y, z)) {
                Some(p) => if p < palette.len() {
                    palette[p as int]
                } else {
                    Block::Air
                },
                None => Block::Air,
            },
        }
    }
}

/// One 16x16x16 section of a chunk, with its palette already resolved to blocks.
pub struct Section {
    pub y: i8,
    pub palette: Vec<Block>,
    pub data: Option<Vec<i64>>,
}

impl Section {
    pub open spec fn data_view(&self) -> Option<Seq<i64>> {
        match self.data {
            Some(d) => Some(d@),
            None => None,
        }
    }

    /// A section whose palette can be addressed by a packed field of at most 63 bits.
    pub open spec fn addressable(&self) -> bool {
        self.palette@.len() <= 0x8000_0000_0000_0000
    }

    /// The block at (x, y, z) of this section.
    pub open spec fn block(&self, x: nat, y: nat, z: nat) -> Block {
        section_block_at(self.palette@, self.data_view(), x, y, z)
    }
}

proof fn lemma_ceil_log2(n: nat)
    requires
        n >= 1,
    ensures
        pow2(ceil_log2(n)) >= n,
        ceil_log2(n) == 0 || pow2((ceil_log2(n) - 1) as nat) < n,
    decreases n,
{
    lemma2_to64();
    if n > 1 {
        let m = ((n + 1) / 2) as nat;
        lemma_ceil_log2(m);
        lemma_pow2_unfold(ceil_log2(n));
        if ceil_log2(m) > 0 {
            lemma_pow2_unfold(ceil_log2(m));
        }
    }
}

/// `ceil_log2(n)` is the only `b` with `2^(b-1) < n <= 2^b`.
proof fn lemma_ceil_log2_unique(n: nat, b: nat)
    requires
        n >= 1,
        pow2(b) >= n,
        b == 0 || pow2((b - 1) as nat) < n,
    ensures
        b == ceil_log2(n),
{
    lemma_ceil_log2(n);
    let c = ceil_log2(n);
    if b < c {
        if b < (c - 1) as nat {
            lemma_pow2_strictly_increases(b, (c - 1) as nat);
        }
    } else if b > c {
        if c < (b - 1) as nat {
            lemma_pow2_strictly_increases(c, (b - 1) as nat);
        }
    }
}

/// Width of a packed palette index for a palette of `len` entries
/// (see `palette_bits`), computed exactly in integers. A computation through
/// `(len as f32).log2().ceil()` differs from it only by float rounding: with
/// a correctly rounded `log2` it agrees for palettes of up to 2^21 entries (a
/// section holds 4096 blocks) and gives one bit fewer for some larger ones.
/// std leaves the precision of `f32::log2` unspecified, so that float result
/// has no exact statement.
pub fn bits_for_palette(len: usize) -> (bits: u64)
    requires
        len <= 0x8000_0000_0000_0000,
    ensures
        bits == palette_bits(len as nat),
        4 <= bits <= 63,
{
    let len64 = len as u64;
    let mut b: u64 = 0;
    let mut p: u64 = 1;
    proof {
        lemma2_to64();
    }
    while p < len64
        invariant
            len64 == len,
            len <= 0x8000_0000_0000_0000,
            b <= 63,
            p == pow2(b as nat),
            b == 0 || pow2((b - 1) as nat) < len,
        decreases 64 - b,
    {
        proof {
            lemma2_to64();
            if b >= 63 {
                lemma_pow2_unfold(64);
                assert(pow2(63) == 0x8000_0000_0000_0000);
                assert(false);
            }
            lemma_pow2_unfold((b + 1) as nat);
        }
        p = p * 2;
        b = b + 1;
    }
    proof {
        if len >= 1 {
            lemma_ceil_log2_unique(len as nat, b as nat);
        }
    }
    if b < 4 {
        4
    } else {
        b
    }
}

/// Reads block (x, y, z) of a section: the palette entry that the packed
/// data selects for it.
pub fn get_block_at(section: &Section, x: usize, y: usize, z: usize) -> (block: Block)
    requires
        section.palette@.len() > 0 && section.data is Some ==> {
            &&& section.addressable()
            &&& y * 256 + z * 16 + x <= usize::MAX
        },
    ensures
        block == section.block(x as nat, y as nat, z as nat),
{
    if section.palette.len() == 0 {
        return Block::Air;
    }
    let words = match &section.data {
        Some(d) => d,
        None => return section.palette[0],
    };
    let bits = bits_for_palette(section.palette.len());
    let per_word: u64 = 64 / bits;
    let index: u64 = (y * 256 + z * 16 + x) as u64;
    proof {
        assert(per_word >= 1 && per_word * bits <= 64) by (nonlinear_arith)
            requires
                4 <= bits <= 63,
                per_word == 64u64 / bits,
        ;
    }
    let word: u64 = index / per_word;
    let slot: u64 = index % per_word;
    proof {
        assert(slot * bits + bits <= 64) by (nonlinear_arith)
            requires
                slot < per_word,
                per_word * bits <= 64,
        ;
    }
    let offset: u64 = slot * bits;
    proof {
        lemma_u64_pow2_no_overflow(bits as nat);
        lemma_u64_shl_is_mul(1, bits);
    }
    let mask: u64 = (1u64 << bits) - 1;
    if word >= words.len() as u64 {
        return Block::Air;
    }
    let raw = #[verifier::truncate] (words[word as usize] as u64);
    let shifted = raw >> offset;
    let p = shifted & mask;
    proof {
        lemma_u64_shr_is_div(raw, offset);
        assert(mask == low_bits_mask(bits as nat) as u64);
        lemma_u64_low_bits_mask_is_mod(shifted, bits as nat);
        lemma_pow2_pos(bits as nat);
        assert(p as nat == packed_field(words@[word as int], offset as nat, bits as nat));
    }
    if p < section.palette.len() as u64 {
        section.palette[p as usize]
    } else {
        Block::Air
    }
}

/// The number a long holds when `count` fields of `bits` bits each are put
/// in it from its low bits up: `indices[start]` lowest, then
/// `indices[start + 1]`, and so on, 0 for positions past the list's end.
pub open spec fn packed_long(indices: Seq<nat>, bits: nat, start: int, count: nat) -> nat
    decreases count,
{
    if count == 0 {
        0
    } else {
        (if 0 <= start < indices.len() { indices[start] } else { 0 }) + pow2(bits) * packed_long(
            indices,
            bits,
            start + 1,
            (count - 1) as nat,
        )
    }
}

proof fn lemma_packed_long_digit(indices: Seq<nat>, bits: nat, start: int, count: nat, t: nat)
    requires
        t < count,
        0 <= start,
        forall|i: int| 0 <= i < indices.len() ==> #[trigger] indices[i] < pow2(bits),
    ensures
        packed_long(indices, bits, start, count) / pow2(t * bits) % pow2(bits) == (if start + t < indices.len() {
            indices[start + t]
        } else {
            0
        }),
    decreases t,
{
    lemma_pow2_pos(bits);
    let a: nat = if start < indices.len() { indices[start] } else { 0 };
    let rest = packed_long(indices, bits, start + 1, (count - 1) as nat);
    let v = packed_long(indices, bits, start, count);
    assert(v == rest * pow2(bits) + a) by (nonlinear_arith)
        requires
            v == a + pow2(bits) * rest,
    ;
    lemma_fundamental_div_mod_converse_mod(v as int, pow2(bits) as int, rest as int, a as int);
    lemma_fundamental_div_mod_converse_div(v as int, pow2(bits) as int, rest as int, a as int);
    if t == 0 {
        assert(pow2(0) == 1) by {
            lemma2_to64();
        }
        assert(v / 1 == v);
    } else {
        lemma_packed_long_digit(indices, bits, start + 1, (count - 1) as nat, (t - 1) as nat);
        assert(t * bits == bits + (t - 1) * bits) by (nonlinear_arith)
            requires
                t >= 1,
        ;
        vstd::arithmetic::power2::lemma_pow2_adds(bits, ((t - 1) * bits) as nat);
        lemma_pow2_pos(((t - 1) * bits) as nat);
        lemma_div_denominator(v as int, pow2(bits) as int, pow2(((t - 1) * bits) as nat) as int);
    }
}

/// Reading packed data back: when a palette of `n >= 1` entries takes fields
/// of `bits` bits (the least number, at least 4, whose `2^bits` reaches `n`),
/// and every long of the data packs `64 / bits` indices from its low bits
/// up, the indices of the blocks in order y, z, x, then block (x, y, z) of
/// the section is the palette entry of index number `y * 256 + z * 16 + x`.
pub proof fn lemma_packed_round_trip(sec: Section, indices: Seq<nat>, bits: nat, x: nat, y: nat, z: nat)
    requires
        sec.palette@.len() >= 1,
        4 <= bits <= 64,
        pow2(bits) >= sec.palette@.len(),
        bits == 4 || pow2((bits - 1) as nat) < sec.palette@.len(),
        indices.len() == 4096,
        forall|i: int| 0 <= i < 4096 ==> #[trigger] indices[i] < sec.palette@.len(),
        sec.data is Some,
        sec.data->0@.len() * (64nat / bits) >= 4096,
        forall|j: int| 0 <= j < sec.data->0@.len() ==> ((#[trigger] sec.data->0@[j]) as u64) as nat
            == packed_long(indices, bits, j * (64nat / bits), 64nat / bits),
        x < 16,
        y < 16,
        z < 16,
    ensures
        sec.block(x, y, z) == sec.palette@[indices[(y * 256 + z * 16 + x) as int] as int],
{
    let n = sec.palette@.len();
    let words = sec.data->0@;
    lemma_ceil_log2(n);
    let c = ceil_log2(n);
    if bits == 4 {
        if c > 4 {
            if 4 < (c - 1) as nat {
                lemma_pow2_strictly_increases(4, (c - 1) as nat);
            }
        }
        assert(palette_bits(n) == 4);
    } else {
        lemma_ceil_log2_unique(n, bits);
        assert(palette_bits(n) == bits);
    }
    let per: nat = 64nat / bits;
    assert(per >= 1);
    let b: nat = y * 256 + z * 16 + x;
    assert(b < 4096);
    let j: nat = b / per;
    let t: nat = b % per;
    lemma_fundamental_div_mod(b as int, per as int);
    assert(j < words.len()) by (nonlinear_arith)
        requires
            b == per * j + t,
            t >= 0,
            b < 4096,
            words.len() * per >= 4096,
            per >= 1,
    ;
    assert forall|i: int| 0 <= i < indices.len() implies #[trigger] indices[i] < pow2(bits) by {
        assert(indices[i] < n);
    }
    assert(j * per + t == b) by (nonlinear_arith)
        requires
            b == per * j + t,
    ;
    assert(words[j as int] as u64 as nat == packed_long(indices, bits, (j * per) as int, per));
    lemma_packed_long_digit(indices, bits, (j * per) as int, per, t);
    assert(packed_index(words, palette_bits(n), block_order(x, y, z)) == Some(indices[b as int]));
}

/// A section with an empty palette is air throughout, and one without packed
/// data is filled with its first palette entry.
pub proof fn lemma_section_without_data(sec: Section, x: nat, y: nat, z: nat)
    ensures
        sec.palette@.len() == 0 ==> sec.block(x, y, z) == Block::Air,
        sec.palette@.len() > 0 && sec.data is None ==> sec.block(x, y, z) == sec.palette@[0],
{
}

} // verus!
