use vstd::prelude::*;

verus! {

/// Sector offset of chunk (cx, cz) in a region header: the first three bytes,
/// big-endian, of its four-byte entry at `4 * (cz * 32 + cx)`.
pub open spec fn header_sector(header: Seq<u8>, cx: int, cz: int) -> nat {
    let o = 4 * (cz * 32 + cx);
    (header[o] as nat) * 65536 + (header[o + 1] as nat) * 256 + (header[o + 2] as nat)
}

/// Where a chunk of a region is stored.
pub struct ChunkLocation {
    pub cx: usize,
    pub cz: usize,
    pub sector: u32,
}

/// The location entry for header slot `k` (chunk `k % 32`, `k / 32`).
pub open spec fn header_location(header: Seq<u8>, k: int) -> ChunkLocation {
    ChunkLocation {
        cx: (k % 32) as usize,
        cz: (k / 32) as usize,
        sector: header_sector(header, k % 32, k / 32) as u32,
    }
}

/// The chunks a region file holds, in header order (z, then x): every
/// header entry with a non-zero sector offset. A file too short to hold
/// the header holds none.
pub open spec fn region_locations(file: Seq<u8>) -> Seq<ChunkLocation> {
    if file.len() < 4096 {
        Seq::empty()
    } else {
        Seq::new(1024, |k: int| header_location(file, k)).filter(|l: ChunkLocation| l.sector != 0)
    }
}

/// Lists the chunks stored in a region file.
pub fn chunk_locations(file: &[u8]) -> (locs: Vec<ChunkLocation>)
    ensures
        locs@ == region_locations(file@),
{
    let mut locs: Vec<ChunkLocation> = Vec::new();
    if file.len() < 4096 {
        assert(locs@ =~= region_locations(file@));
        return locs;
    }
    let ghost all = Seq::new(1024, |k: int| header_location(file@, k));
    let mut k: usize = 0;
    while k < 1024
        invariant
            file@.len() >= 4096,
            all == Seq::new(1024, |k: int| header_location(file@, k)),
            k <= 1024,
            locs@ == all.take(k as int).filter(|l: ChunkLocation| l.sector != 0),
        decreases 1024 - k,
    {
        let cx = k % 32;
        let cz = k / 32;
        let o = 4 * (cz * 32 + cx);
        let sector: u32 = (file[o] as u32) * 65536 + (file[o + 1] as u32) * 256 + (file[o + 2] as u32);
        proof {
            assert(all.take(k + 1).drop_last() =~= all.take(k as int));
            assert(all.take(k + 1).last() == all[k as int]);
            assert(all[k as int] == header_location(file@, k as int));
            reveal_with_fuel(Seq::filter, 1);
        }
        if sector != 0 {
            locs.push(ChunkLocation { cx, cz, sector });
        }
        proof {
            assert(locs@ =~= all.take(k + 1).filter(|l: ChunkLocation| l.sector != 0));
        }
        k = k + 1;
    }
    assert(all.take(1024) =~= all);
    locs
}

/// A big-endian 32-bit number.
pub open spec fn be_u32(a: u8, b: u8, c: u8, d: u8) -> nat {
    (a as nat) * 16777216 + (b as nat) * 65536 + (c as nat) * 256 + (d as nat)
}

/// The compressed payload of the chunk stored at `sector`: after a four-byte
/// big-endian length and a one-byte compression type, `length - 1` bytes.
/// `None` when the file ends first or the length is zero.
pub open spec fn chunk_record(file: Seq<u8>, sector: nat) -> Option<Seq<u8>> {
    let start: int = (sector * 4096) as int;
    if start + 5 > file.len() {
        None
    } else {
        let len: int = be_u32(file[start], file[start + 1], file[start + 2], file[start + 3]) as int;
        if len == 0 || start + 4 + len > file.len() {
            None
        } else {
            Some(file.subrange(start + 5, start + 4 + len))
        }
    }
}

/// What zlib decompression (flate2's `ZlibDecoder` read to its end) makes of
/// `data`; `None` when the data is not a valid zlib stream.
pub uninterp spec fn zlib_inflate(data: Seq<u8>) -> Option<Seq<u8>>;

/// Calls flate2's `ZlibDecoder::read_to_end` on `data`. Claimed: the bytes
/// read are `zlib_inflate(data)`, and `None` comes back when that is `None`.
#[verifier::external_body]
fn inflate(data: &[u8]) -> (out: Option<Vec<u8>>)
    ensures
        match out {
            Some(v) => zlib_inflate(data@) == Some(v@),
            None => zlib_inflate(data@) is None,
        },
{
    let mut out = Vec::new();
    match std::io::Read::read_to_end(&mut flate2::read::ZlibDecoder::new(data), &mut out) {
        Ok(_) => Some(out),
        Err(_) => None,
    }
}

/// Reads and decompresses the chunk stored at `sector` of a region file.
pub fn read_chunk_payload(file: &[u8], sector: u32) -> (payload: Option<Vec<u8>>)
    ensures
        match chunk_record(file@, sector as nat) {
            None => payload is None,
            Some(c) => match payload {
                Some(v) => zlib_inflate(c) == Some(v@),
                None => zlib_inflate(c) is None,
            },
        },
{
    let start: u64 = (sector as u64) * 4096;
    let flen: u64 = file.len() as u64;
    if flen < 5 || start > flen - 5 {
        return None;
    }
    let s = start as usize;
    let len: u32 = (file[s] as u32) * 16777216 + (file[s + 1] as u32) * 65536 + (file[s + 2] as u32) * 256
        + (file[s + 3] as u32);
    if len == 0 || (len as u64) > flen - start - 4 {
        return None;
    }
    let end = s + 4 + (len as usize);
    let mut compressed: Vec<u8> = Vec::new();
    let mut i = s + 5;
    while i < end
        invariant
            s + 5 <= i <= end,
            end <= file@.len(),
            compressed@ == file@.subrange(s + 5, i as int),
        decreases end - i,
    {
        compressed.push(file[i]);
        i = i + 1;
        assert(compressed@ =~= file@.subrange(s + 5, i as int));
    }
    inflate(compressed.as_slice())
}

/// The decompressed payload of the chunk at `loc`: read from its own record
/// of the file alone; `None` when the record is missing or does not inflate.
pub open spec fn chunk_payload(file: Seq<u8>, loc: ChunkLocation) -> Option<Seq<u8>> {
    match chunk_record(file, loc.sector as nat) {
        None => None,
        Some(c) => zlib_inflate(c),
    }
}

/// The chunks of `locs` that can be read from `file`, in order, each with its payload.
pub open spec fn readable_chunks(file: Seq<u8>, locs: Seq<ChunkLocation>) -> Seq<(ChunkLocation, Seq<u8>)>
    decreases locs.len(),
{
    if locs.len() == 0 {
        Seq::empty()
    } else {
        let rest = readable_chunks(file, locs.drop_last());
        match chunk_payload(file, locs.last()) {
            Some(p) => rest.push((locs.last(), p)),
            None => rest,
        }
    }
}

/// The chunks a region file holds that can be read, in header order, each
/// with its decompressed payload.
pub open spec fn region_chunks(file: Seq<u8>) -> Seq<(ChunkLocation, Seq<u8>)> {
    readable_chunks(file, region_locations(file))
}

/// Reads every chunk of a region file that can be read, skipping those whose
/// record is missing or does not decompress.
pub fn read_region_chunks(file: &[u8]) -> (chunks: Vec<(ChunkLocation, Vec<u8>)>)
    ensures
        chunks@.map_values(|c: (ChunkLocation, Vec<u8>)| (c.0, c.1@)) == region_chunks(file@),
{
    let locs = chunk_locations(file);
    let mut chunks: Vec<(ChunkLocation, Vec<u8>)> = Vec::new();
    let mut i: usize = 0;
    while i < locs.len()
        invariant
            locs@ == region_locations(file@),
            i <= locs@.len(),
            chunks@.map_values(|c: (ChunkLocation, Vec<u8>)| (c.0, c.1@)) == readable_chunks(file@, locs@.take(i as int)),
        decreases locs.len() - i,
    {
        let loc = ChunkLocation { cx: locs[i].cx, cz: locs[i].cz, sector: locs[i].sector };
        assert(loc == locs@[i as int]);
        let ghost before = chunks@;
        let payload = read_chunk_payload(file, loc.sector);
        proof {
            assert(locs@.take(i + 1).drop_last() =~= locs@.take(i as int));
            assert(locs@.take(i + 1).last() == loc);
        }
        match payload {
            Some(p) => {
                chunks.push((loc, p));
                assert(chunks@.map_values(|c: (ChunkLocation, Vec<u8>)| (c.0, c.1@)) =~= before.map_values(
                    |c: (ChunkLocation, Vec<u8>)| (c.0, c.1@),
                ).push((loc, p@)));
            },
            None => {},
        }
        i = i + 1;
    }
    assert(locs@.take(locs@.len() as int) =~= locs@);
    chunks
}

/// `ps` without the entries of chunk location `gone`.
pub open spec fn without_chunk(ps: Seq<(ChunkLocation, Seq<u8>)>, gone: ChunkLocation) -> Seq<(ChunkLocation, Seq<u8>)>
    decreases ps.len(),
{
    if ps.len() == 0 {
        ps
    } else {
        let rest = without_chunk(ps.drop_last(), gone);
        if ps.last().0 == gone {
            rest
        } else {
            rest.push(ps.last())
        }
    }
}

/// The first 4096 bytes of a region file, its header, decide which chunks it lists.
pub proof fn lemma_header_decides_locations(f1: Seq<u8>, f2: Seq<u8>)
    requires
        f1.len() >= 4096,
        f2.len() >= 4096,
        f1.subrange(0, 4096) == f2.subrange(0, 4096),
    ensures
        region_locations(f1) == region_locations(f2),
{
    assert forall|k: int| 0 <= k < 1024 implies #[trigger] header_location(f1, k) == header_location(f2, k) by {
        let o = 4 * ((k / 32) * 32 + k % 32);
        assert(f1[o] == f1.subrange(0, 4096)[o]);
        assert(f1[o + 1] == f1.subrange(0, 4096)[o + 1]);
        assert(f1[o + 2] == f1.subrange(0, 4096)[o + 2]);
        assert(f2[o] == f2.subrange(0, 4096)[o]);
        assert(f2[o + 1] == f2.subrange(0, 4096)[o + 1]);
        assert(f2[o + 2] == f2.subrange(0, 4096)[o + 2]);
    }
    assert(Seq::new(1024, |k: int| header_location(f1, k)) =~= Seq::new(1024, |k: int| header_location(f2, k)));
}

/// A chunk's payload depends on its own record of the file and nothing else.
pub proof fn lemma_payload_from_own_record(f1: Seq<u8>, f2: Seq<u8>, loc: ChunkLocation)
    requires
        chunk_record(f1, loc.sector as nat) == chunk_record(f2, loc.sector as nat),
    ensures
        chunk_payload(f1, loc) == chunk_payload(f2, loc),
{
}

proof fn lemma_readable_without(f1: Seq<u8>, f2: Seq<u8>, locs: Seq<ChunkLocation>, gone: ChunkLocation)
    requires
        chunk_payload(f2, gone) is None,
        forall|i: int| 0 <= i < locs.len() && locs[i] != gone ==> chunk_payload(f1, #[trigger] locs[i]) == chunk_payload(f2, locs[i]),
    ensures
        readable_chunks(f2, locs) == without_chunk(readable_chunks(f1, locs), gone),
    decreases locs.len(),
{
    if locs.len() > 0 {
        let init = locs.drop_last();
        let l = locs.last();
        assert forall|i: int| 0 <= i < init.len() && init[i] != gone implies chunk_payload(f1, #[trigger] init[i]) == chunk_payload(f2, init[i]) by {
            assert(init[i] == locs[i]);
        }
        lemma_readable_without(f1, f2, init, gone);
        let r1 = readable_chunks(f1, init);
        assert(locs[locs.len() - 1] == l);
        match chunk_payload(f1, l) {
            Some(p) => {
                assert(r1.push((l, p)).drop_last() =~= r1);
            },
            None => {},
        }
    }
}

/// Chunks are read independently: when a region file is changed only in the
/// record of one chunk, so that it no longer reads, the file yields the
/// same chunks as before with that one left out.
pub proof fn lemma_unreadable_chunk_left_out(f1: Seq<u8>, f2: Seq<u8>, gone: ChunkLocation)
    requires
        f1.len() >= 4096,
        f2.len() >= 4096,
        f1.subrange(0, 4096) == f2.subrange(0, 4096),
        chunk_payload(f2, gone) is None,
        forall|i: int| 0 <= i < region_locations(f1).len() && region_locations(f1)[i] != gone
            ==> chunk_record(f1, (#[trigger] region_locations(f1)[i]).sector as nat)
                == chunk_record(f2, region_locations(f1)[i].sector as nat),
    ensures
        region_chunks(f2) == without_chunk(region_chunks(f1), gone),
{
    lemma_header_decides_locations(f1, f2);
    let locs = region_locations(f1);
    assert forall|i: int| 0 <= i < locs.len() && locs[i] != gone implies chunk_payload(f1, #[trigger] locs[i]) == chunk_payload(f2, locs[i]) by {
        lemma_payload_from_own_record(f1, f2, locs[i]);
    }
    lemma_readable_without(f1, f2, locs, gone);
}

} // verus!
