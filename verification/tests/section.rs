use dmmt::section::{bits_for_palette, get_block_at, Section};
use dmmt::Block;

fn c(n: u8) -> Block {
    Block::Color([n, n, n])
}

#[test]
fn palette_bits_match_log2_ceiling() {
    for len in 1usize..=70000 {
        let expected = std::cmp::max(4, (len as f32).log2().ceil() as usize);
        assert_eq!(bits_for_palette(len) as usize, expected, "len {}", len);
    }
    assert_eq!(bits_for_palette(1 << 40), 40);
    assert_eq!(bits_for_palette((1 << 40) + 1), 41);
}

fn pack(indices: &[u64], bits: u64) -> Vec<i64> {
    let per = 64 / bits;
    let words = (indices.len() as u64 + per - 1) / per;
    let mut data = vec![0u64; words as usize];
    for (i, &p) in indices.iter().enumerate() {
        let w = i as u64 / per;
        let off = (i as u64 % per) * bits;
        data[w as usize] |= p << off;
    }
    data.into_iter().map(|w| w as i64).collect()
}

#[test]
fn empty_palette_reads_air() {
    let s = Section { y: 0, palette: vec![], data: Some(vec![-1; 256]) };
    assert_eq!(get_block_at(&s, 3, 4, 5), Block::Air);
}

#[test]
fn no_data_reads_first_entry() {
    let s = Section { y: 0, palette: vec![c(7), c(8)], data: None };
    assert_eq!(get_block_at(&s, 15, 15, 15), c(7));
}

#[test]
fn four_bit_indices_unpack() {
    let palette: Vec<Block> = (0..5).map(|i| c(i)).collect();
    let indices: Vec<u64> = (0..4096u64).map(|i| (i * 7 + 3) % 5).collect();
    let s = Section { y: 0, palette, data: Some(pack(&indices, 4)) };
    for y in 0..16 {
        for z in 0..16 {
            for x in 0..16 {
                let i = y * 256 + z * 16 + x;
                assert_eq!(get_block_at(&s, x, y, z), c(indices[i] as u8));
            }
        }
    }
}

#[test]
fn five_bit_indices_do_not_span_words() {
    // 17 entries need 5 bits: 12 per long, the top 4 bits of each long unused.
    let palette: Vec<Block> = (0..17).map(|i| c(i)).collect();
    let indices: Vec<u64> = (0..4096u64).map(|i| (i * 5 + 1) % 17).collect();
    let mut data = pack(&indices, 5);
    assert_eq!(data.len(), 342);
    for w in data.iter_mut() {
        *w |= 0xF000_0000_0000_0000u64 as i64;
    }
    let s = Section { y: 0, palette, data: Some(data) };
    for i in 0..4096usize {
        let (x, z, y) = (i % 16, (i / 16) % 16, i / 256);
        assert_eq!(get_block_at(&s, x, y, z), c(indices[i] as u8));
    }
}

#[test]
fn index_past_palette_reads_air() {
    let palette = vec![c(1), c(2)];
    let data = pack(&[0, 1, 15], 4);
    let s = Section { y: 0, palette, data: Some(data) };
    assert_eq!(get_block_at(&s, 0, 0, 0), c(1));
    assert_eq!(get_block_at(&s, 1, 0, 0), c(2));
    assert_eq!(get_block_at(&s, 2, 0, 0), Block::Air);
}

#[test]
fn short_data_reads_air() {
    let palette = vec![c(1), c(2)];
    let s = Section { y: 0, palette, data: Some(vec![0x11]) };
    assert_eq!(get_block_at(&s, 1, 0, 0), c(2));
    assert_eq!(get_block_at(&s, 0, 1, 0), Block::Air);
}

#[test]
fn negative_words_read_as_unsigned_bits() {
    let palette: Vec<Block> = (0..16).map(|i| c(i)).collect();
    let s = Section { y: 0, palette, data: Some(vec![-1]) };
    assert_eq!(get_block_at(&s, 15, 0, 0), c(15));
}

#[test]
fn any_coordinates_without_packed_data() {
    let empty = Section { y: 0, palette: vec![], data: Some(vec![1]) };
    assert_eq!(get_block_at(&empty, usize::MAX, usize::MAX, usize::MAX), Block::Air);
    let plain = Section { y: 0, palette: vec![c(4), c(5)], data: None };
    assert_eq!(get_block_at(&plain, usize::MAX, usize::MAX, usize::MAX), c(4));
}
