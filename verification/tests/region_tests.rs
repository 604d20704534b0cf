use std::io::Write;

use mcregion::region::Region;
use mcregion::region::WorldError;
use mcregion::world::Chunk;
use mcregion::nbt::Nbt;

fn zero_region() -> Region {
    Region::decode(&[0u8; 8192], 0, 0).expect("an 8192-byte buffer is a region")
}

#[test]
fn zero_header_decodes_to_empty_region() {
    let region = zero_region();
    assert_eq!(region.locations.len(), 4096);
    assert_eq!(region.timestamps.len(), 4096);
    assert_eq!(region.data.len(), 0);
    for x in 0..32isize {
        for z in 0..32isize {
            assert_eq!(region.get_chunk_location(x, z), (0, 0));
        }
    }
    assert_eq!(region.get_chunk(0, 0), Err(WorldError::UnallocatedChunk));
    assert_eq!(region.encode(), vec![0u8; 8192]);
}

#[test]
fn short_buffer_is_rejected() {
    assert!(Region::decode(&[0u8; 8191], 0, 0).is_none());
    assert!(Region::decode(&[], 0, 0).is_none());
}

#[test]
fn encode_decode_round_trip() {
    let mut bytes = vec![0u8; 8192 + 4096];
    for (i, b) in bytes.iter_mut().enumerate() {
        *b = (i * 31 + 7) as u8;
    }
    let region = Region::decode(&bytes, -3, 7).expect("long enough");
    assert_eq!(region.x, -3);
    assert_eq!(region.z, 7);
    assert_eq!(region.encode(), bytes);
    let again = Region::decode(&region.encode(), -3, 7).expect("still long enough");
    assert_eq!(again, region);
}

#[test]
fn locate_reads_the_slot_written_at_the_derived_index() {
    let mut bytes = vec![0u8; 8192];
    // slot for local coordinates (5, 9): index 4 * (9 * 32 + 5)
    let idx = 4 * (9 * 32 + 5);
    bytes[idx] = 0x01;
    bytes[idx + 1] = 0x02;
    bytes[idx + 2] = 0x03;
    bytes[idx + 3] = 0x04;
    let region = Region::decode(&bytes, 0, 0).expect("header sized");
    assert_eq!(region.get_chunk_location(5, 9), (0x010203, 4));
    // the same local coordinates reached from another region's chunk range
    assert_eq!(region.get_chunk_location(5 + 32, 9 - 32), (0x010203, 4));
}

#[test]
fn addressing_is_bijective_over_all_slots() {
    let mut seen = [false; 1024];
    for z in 0..32usize {
        for x in 0..32usize {
            let idx = 4 * (32 * z + x);
            assert_eq!(idx % 4, 0);
            let slot = idx / 4;
            assert!(slot < 1024);
            assert!(!seen[slot], "two coordinate pairs map to one slot");
            seen[slot] = true;
        }
    }
    assert!(seen.iter().all(|&s| s));
}

#[test]
fn record_out_of_bounds_when_span_exceeds_data() {
    let mut bytes = vec![0u8; 8192];
    bytes[0] = 0;
    bytes[1] = 0;
    bytes[2] = 0;
    bytes[3] = 2; // two sectors claimed, no data present
    let region = Region::decode(&bytes, 0, 0).expect("header sized");
    assert_eq!(region.get_chunk(0, 0), Err(WorldError::RecordOutOfBounds));
}

#[test]
fn record_out_of_bounds_when_length_prefix_escapes_record() {
    let mut bytes = vec![0u8; 8192 + 4096];
    bytes[3] = 1; // one sector at offset 0
    bytes[8192] = 0xFF; // huge record length
    let region = Region::decode(&bytes, 0, 0).expect("header sized");
    assert_eq!(region.get_chunk(0, 0), Err(WorldError::RecordOutOfBounds));
}

#[test]
fn corrupt_zlib_stream_is_a_decompression_failure() {
    let mut bytes = vec![0u8; 8192 + 4096];
    bytes[3] = 1;
    // record: length 4 (scheme + 3 payload bytes), scheme 2, garbage payload
    bytes[8192 + 3] = 4;
    bytes[8192 + 4] = 2;
    bytes[8192 + 5] = 0xAB;
    bytes[8192 + 6] = 0xCD;
    bytes[8192 + 7] = 0xEF;
    let region = Region::decode(&bytes, 0, 0).expect("header sized");
    assert_eq!(region.get_chunk(0, 0), Err(WorldError::DecompressionFailure));
}

#[test]
fn unknown_scheme_byte_is_treated_as_raw_payload() {
    // a raw (uncompressed) chunk document under scheme byte 9
    let level_entries = vec![(b"xPos".to_vec(), Nbt::Int(11))];
    let root = Nbt::Compound(vec![(b"Level".to_vec(), Nbt::Compound(level_entries))]);
    let doc = mcregion::nbt::encode_root(&Vec::new(), &root);
    let mut bytes = vec![0u8; 8192 + 4096];
    bytes[3] = 1;
    let l = (doc.len() + 1) as u32;
    bytes[8192..8196].copy_from_slice(&l.to_be_bytes());
    bytes[8196] = 9;
    bytes[8197..8197 + doc.len()].copy_from_slice(&doc);
    let region = Region::decode(&bytes, 0, 0).expect("header sized");
    let chunk = region.get_chunk(0, 0).expect("raw payload parses");
    assert_eq!(chunk.x, 0);
    assert_eq!(chunk.z, 0);
    assert_eq!(chunk.level, vec![(b"xPos".to_vec(), Nbt::Int(11))]);
    assert_eq!(chunk.data_version, None);
}

#[test]
fn raw_garbage_payload_is_a_malformed_tree() {
    let mut bytes = vec![0u8; 8192 + 4096];
    bytes[3] = 1;
    bytes[8192 + 3] = 4; // length: scheme + 3 bytes
    bytes[8192 + 4] = 3; // scheme 3: raw
    bytes[8192 + 5] = 0x77;
    let region = Region::decode(&bytes, 0, 0).expect("header sized");
    assert_eq!(region.get_chunk(0, 0), Err(WorldError::MalformedTree));
}

fn noise(len: usize) -> Vec<u8> {
    let mut out = Vec::with_capacity(len);
    let mut state: u32 = 0x2545_F491;
    for _ in 0..len {
        state = state.wrapping_mul(1_664_525).wrapping_add(1_013_904_223);
        out.push((state >> 24) as u8);
    }
    out
}

fn chunk_with_blob(x: isize, z: isize, blob: Vec<u8>) -> Chunk {
    let blob: Vec<i8> = blob.into_iter().map(|b| b as i8).collect();
    let level = vec![
        (b"xPos".to_vec(), Nbt::Int(x as i32)),
        (b"zPos".to_vec(), Nbt::Int(z as i32)),
        (b"Biomes".to_vec(), Nbt::ByteArray(blob)),
    ];
    Chunk { level, data_version: Some(1343), x, z }
}

#[test]
fn growing_record_moves_to_fresh_sectors_and_reads_back() {
    let mut region = zero_region();

    // first write: a small chunk that fits one sector
    let small = chunk_with_blob(0, 0, vec![1, 2, 3]);
    region.set_chunk(small, 100).expect("small chunk fits");
    assert_eq!(region.get_chunk_location(0, 0), (0, 1));
    assert_eq!(region.data.len(), 4096);
    assert_eq!(&region.timestamps[0..4], &100u32.to_be_bytes());
    let back = region.get_chunk(0, 0).expect("small chunk reads back");
    assert_eq!(back.level, chunk_with_blob(0, 0, vec![1, 2, 3]).level);

    // second write: incompressible payload that needs two sectors
    let big = chunk_with_blob(0, 0, noise(6000));
    region.set_chunk(big, 200).expect("grown chunk is appended");
    let (off, cnt) = region.get_chunk_location(0, 0);
    assert_eq!(off, 1, "the grown record is appended after the old sector");
    assert_eq!(cnt, 2, "the allocation grew to two sectors");
    assert_eq!(region.data.len(), 4096 * 3);
    assert_eq!(&region.timestamps[0..4], &200u32.to_be_bytes());

    let back = region.get_chunk(0, 0).expect("grown chunk reads back");
    assert_eq!(back.level, chunk_with_blob(0, 0, noise(6000)).level);
    assert_eq!(back.data_version, Some(1343));
    assert_eq!(back.x, 0);
    assert_eq!(back.z, 0);

    // the stored record is compressed: scheme byte 2, payload differs from the document
    assert_eq!(region.data[4096 + 4], 2);
}

#[test]
fn rewrite_in_place_keeps_the_slot_and_zeroes_the_tail() {
    let mut region = zero_region();
    region.set_chunk(chunk_with_blob(3, 4, noise(3000)), 7).expect("fits");
    let (off1, cnt1) = region.get_chunk_location(3, 4);
    region.set_chunk(chunk_with_blob(3, 4, vec![9]), 8).expect("smaller fits in place");
    let (off2, cnt2) = region.get_chunk_location(3, 4);
    assert_eq!((off1, cnt1), (off2, cnt2), "a record that fits keeps its slot");
    let back = region.get_chunk(3, 4).expect("reads back");
    assert_eq!(back.level, chunk_with_blob(3, 4, vec![9]).level);
    // the tail of the sector holds no stale bytes from the longer record
    let rec_len = {
        let s = 4096 * off2;
        let l = u32::from_be_bytes(region.data[s..s + 4].try_into().unwrap()) as usize;
        4 + l
    };
    let span_end = 4096 * (off2 + cnt2);
    assert!(region.data[4096 * off2 + rec_len..span_end].iter().all(|&b| b == 0));
}

#[test]
fn legacy_gzip_records_are_read() {
    let level_entries = vec![(b"LastUpdate".to_vec(), Nbt::Long(77))];
    let root = Nbt::Compound(vec![(b"Level".to_vec(), Nbt::Compound(level_entries))]);
    let doc = mcregion::nbt::encode_root(&Vec::new(), &root);
    let mut encoder = flate2::write::GzEncoder::new(Vec::new(), flate2::Compression::default());
    encoder.write_all(&doc).unwrap();
    let gz = encoder.finish().unwrap();

    let mut bytes = vec![0u8; 8192 + 4096];
    bytes[3] = 1;
    let l = (gz.len() + 1) as u32;
    bytes[8192..8196].copy_from_slice(&l.to_be_bytes());
    bytes[8196] = 1; // legacy gzip scheme
    bytes[8197..8197 + gz.len()].copy_from_slice(&gz);
    let region = Region::decode(&bytes, 0, 0).expect("header sized");
    let chunk = region.get_chunk(0, 0).expect("gzip record reads");
    assert_eq!(chunk.level, vec![(b"LastUpdate".to_vec(), Nbt::Long(77))]);
}

#[test]
fn negative_coordinates_reduce_modulo_32() {
    let mut bytes = vec![0u8; 8192];
    // local coordinates of (-1, -32) are (31, 0): index 4 * (0 * 32 + 31)
    let idx = 4 * 31;
    bytes[idx + 2] = 9;
    bytes[idx + 3] = 2;
    let region = Region::decode(&bytes, -1, -1).expect("header sized");
    assert_eq!(region.get_chunk_location(-1, -32), (9, 2));
    assert_eq!(region.get_chunk_location(31, 0), (9, 2));
}

#[test]
fn timestamps_are_written_at_the_matching_slot() {
    let mut region = zero_region();
    region.set_chunk(chunk_with_blob(3, 4, vec![1]), 0xAABBCCDD).expect("fits");
    let idx = 4 * (32 * 4 + 3);
    assert_eq!(&region.timestamps[idx..idx + 4], &[0xAA, 0xBB, 0xCC, 0xDD]);
    assert!(region.timestamps[..idx].iter().all(|&b| b == 0));
    assert!(region.timestamps[idx + 4..].iter().all(|&b| b == 0));
}

#[test]
fn oversized_record_is_refused() {
    let mut region = zero_region();
    // 256 sectors of incompressible payload cannot fit a one-byte count
    let chunk = chunk_with_blob(0, 0, noise(4096 * 300));
    assert_eq!(region.set_chunk(chunk, 1), Err(WorldError::RecordOutOfBounds));
}
