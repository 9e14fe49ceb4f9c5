use dmmt::region::{chunk_locations, read_chunk_payload, read_region_chunks};
use std::io::Write;

fn zlib(data: &[u8]) -> Vec<u8> {
    let mut e = flate2::write::ZlibEncoder::new(Vec::new(), flate2::Compression::default());
    e.write_all(data).unwrap();
    e.finish().unwrap()
}

fn header_with(entries: &[(usize, usize, u32)]) -> Vec<u8> {
    let mut file = vec![0u8; 8192];
    for &(cx, cz, sector) in entries {
        let o = 4 * (cz * 32 + cx);
        file[o] = (sector >> 16) as u8;
        file[o + 1] = (sector >> 8) as u8;
        file[o + 2] = sector as u8;
        file[o + 3] = 1;
    }
    file
}

#[test]
fn locations_in_header_order() {
    let file = header_with(&[(5, 0, 2), (0, 1, 0x010203), (31, 31, 7)]);
    let locs = chunk_locations(&file);
    let got: Vec<(usize, usize, u32)> = locs.iter().map(|l| (l.cx, l.cz, l.sector)).collect();
    assert_eq!(got, vec![(5, 0, 2), (0, 1, 0x010203), (31, 31, 7)]);
}

#[test]
fn short_file_has_no_chunks() {
    assert!(chunk_locations(&vec![1u8; 4095]).is_empty());
    assert!(chunk_locations(&header_with(&[])).is_empty());
}

fn file_with_chunk(sector: usize, payload: &[u8], declared_len: Option<u32>) -> Vec<u8> {
    let mut file = header_with(&[(0, 0, sector as u32)]);
    file.resize(sector * 4096, 0);
    let len = declared_len.unwrap_or(payload.len() as u32 + 1);
    file.extend_from_slice(&len.to_be_bytes());
    file.push(2);
    file.extend_from_slice(payload);
    file
}

#[test]
fn chunk_payload_is_decompressed() {
    let plain: Vec<u8> = (0..5000u32).map(|i| (i * 31 % 251) as u8).collect();
    let file = file_with_chunk(2, &zlib(&plain), None);
    assert_eq!(read_chunk_payload(&file, 2), Some(plain));
}

#[test]
fn chunk_past_end_or_truncated_is_skipped() {
    let file = file_with_chunk(2, &zlib(b"hello"), None);
    assert_eq!(read_chunk_payload(&file, 3), None);
    let mut truncated = file.clone();
    truncated.pop();
    assert_eq!(read_chunk_payload(&truncated, 2), None);
    let zero = file_with_chunk(2, &zlib(b"hello"), Some(0));
    assert_eq!(read_chunk_payload(&zero, 2), None);
}

#[test]
fn invalid_zlib_is_skipped() {
    let file = file_with_chunk(2, b"definitely not zlib", None);
    assert_eq!(read_chunk_payload(&file, 2), None);
}

#[test]
fn trailing_bytes_after_payload_are_ignored() {
    let mut file = file_with_chunk(2, &zlib(b"abc"), None);
    file.extend_from_slice(&[9u8; 100]);
    assert_eq!(read_chunk_payload(&file, 2), Some(b"abc".to_vec()));
}

/// A region file with three chunks at sectors 2, 3 and 4, each a zlib stream
/// of its own text, padded to a full sector.
fn three_chunk_file() -> Vec<u8> {
    let mut file = header_with(&[(0, 0, 2), (1, 0, 3), (0, 1, 4)]);
    for text in [&b"first chunk"[..], &b"second chunk"[..], &b"third chunk"[..]] {
        let z = zlib(text);
        let start = file.len();
        file.extend_from_slice(&(z.len() as u32 + 1).to_be_bytes());
        file.push(2);
        file.extend_from_slice(&z);
        file.resize(start + 4096, 0);
    }
    file
}

#[test]
fn region_chunks_read_in_header_order() {
    let file = three_chunk_file();
    let got: Vec<(usize, usize, Vec<u8>)> = read_region_chunks(&file).into_iter().map(|(l, p)| (l.cx, l.cz, p)).collect();
    assert_eq!(
        got,
        vec![(0, 0, b"first chunk".to_vec()), (1, 0, b"second chunk".to_vec()), (0, 1, b"third chunk".to_vec())]
    );
}

#[test]
fn unreadable_chunk_is_left_out_and_the_rest_kept() {
    let mut file = three_chunk_file();
    let len = u32::from_be_bytes([file[3 * 4096], file[3 * 4096 + 1], file[3 * 4096 + 2], file[3 * 4096 + 3]]) as usize;
    for b in &mut file[3 * 4096 + 5..3 * 4096 + 4 + len] {
        *b = 0xff;
    }
    let got: Vec<(usize, usize, Vec<u8>)> = read_region_chunks(&file).into_iter().map(|(l, p)| (l.cx, l.cz, p)).collect();
    assert_eq!(got, vec![(0, 0, b"first chunk".to_vec()), (0, 1, b"third chunk".to_vec())]);
    assert!(read_region_chunks(&vec![0u8; 100]).is_empty());
}
