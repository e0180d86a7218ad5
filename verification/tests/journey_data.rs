use memolanes_core::journey_bitmap::JourneyBitmap;
use memolanes_core::journey_data::{
    deserialize_journey_bitmap, deserialize_tile, parse_tile_index, serialize_journey_bitmap,
    CodecError, FORMAT_VERSION, MAGIC0, MAGIC1,
};

fn sample_bitmap() -> JourneyBitmap {
    let mut bm = JourneyBitmap::new();
    bm.add_line(100, 200, 700, 260);
    bm.add_line(30000, 31000, 30500, 31800);
    bm.add_line(5, 5, 5, 5);
    bm
}

#[test]
fn serialize_deserialize_round_trip() {
    let bm = sample_bitmap();
    let blob = serialize_journey_bitmap(&bm);
    let back = deserialize_journey_bitmap(blob.as_slice()).unwrap();
    assert!(back.same_bitmap(&bm));
    assert_eq!(back.num_tiles(), bm.num_tiles());

    // The header starts with the magic bytes and the format version.
    assert_eq!(blob[0], MAGIC0);
    assert_eq!(blob[1], MAGIC1);
    assert_eq!(blob[2], FORMAT_VERSION);

    // An empty bitmap round-trips too.
    let empty = JourneyBitmap::new();
    let blob2 = serialize_journey_bitmap(&empty);
    let back2 = deserialize_journey_bitmap(blob2.as_slice()).unwrap();
    assert!(back2.same_bitmap(&empty));
    assert_eq!(blob2.len(), 7);
}

#[test]
fn tile_index_matches_bitmap_keys() {
    let bm = sample_bitmap();
    let blob = serialize_journey_bitmap(&bm);
    let idx = parse_tile_index(blob.as_slice()).unwrap();
    assert_eq!(idx.num_entries(), bm.num_tiles());
    for i in 0..idx.num_entries() {
        let (x, y, _loc) = idx.entry(i);
        assert!(bm.get_tile(x, y).is_some(), "indexed tile must be in the bitmap");
    }
}

#[test]
fn per_tile_round_trip() {
    let bm = sample_bitmap();
    let blob = serialize_journey_bitmap(&bm);
    let idx = parse_tile_index(blob.as_slice()).unwrap();
    for i in 0..idx.num_entries() {
        let (x, y, loc) = idx.entry(i);
        let payload = &blob[loc.offset..loc.offset + loc.length];
        let tile = deserialize_tile(payload, x, y).unwrap();
        let original = bm.get_tile(x, y).unwrap();
        assert!(tile.same_bits(original), "tile ({x},{y}) must decode to its original raster");
    }
}

#[test]
fn lookup_finds_only_present_tiles() {
    let bm = sample_bitmap();
    let blob = serialize_journey_bitmap(&bm);
    let idx = parse_tile_index(blob.as_slice()).unwrap();
    let (x, y, _) = idx.entry(0);
    assert!(idx.lookup(x, y).is_some());
    // Tile (511, 511) holds no line of the sample.
    assert!(idx.lookup(511, 511).is_none());
}

#[test]
fn malformed_blobs_are_rejected() {
    // Too short for the magic bytes.
    assert_eq!(parse_tile_index(&[MAGIC0]).unwrap_err(), CodecError::MalformedBlob);
    // Wrong magic.
    assert_eq!(
        parse_tile_index(&[0x00, 0x01, FORMAT_VERSION, 0, 0, 0, 0]).unwrap_err(),
        CodecError::MalformedBlob
    );
    // Right magic, unknown version.
    assert_eq!(
        parse_tile_index(&[MAGIC0, MAGIC1, 99, 0, 0, 0, 0]).unwrap_err(),
        CodecError::UnsupportedVersion
    );
    // Header announces more entries than the blob holds.
    assert_eq!(
        parse_tile_index(&[MAGIC0, MAGIC1, FORMAT_VERSION, 5, 0, 0, 0]).unwrap_err(),
        CodecError::MalformedBlob
    );
    // Truncated serialized bitmap.
    let bm = sample_bitmap();
    let blob = serialize_journey_bitmap(&bm);
    assert_eq!(
        deserialize_journey_bitmap(&blob[..blob.len() - 1]).unwrap_err(),
        CodecError::MalformedBlob
    );
}

#[test]
fn bad_payload_length_defers_to_tile_decode() {
    // A blob whose directory parses but whose single entry names a 5-byte
    // payload: construction succeeds (only the index is read), the listed
    // key is visible, and only decoding that tile fails.
    let blob: Vec<u8> = vec![
        MAGIC0, MAGIC1, FORMAT_VERSION, 1, 0, 0, 0, // magic, version, count
        0, 0, 0, 0, 19, 0, 0, 0, 5, 0, 0, 0, // entry (0,0) at offset 19, length 5
        1, 0, 1, 0, 1, // the short payload
    ];
    let idx = parse_tile_index(blob.as_slice()).unwrap();
    assert_eq!(idx.num_entries(), 1);

    let source =
        memolanes_core::map_renderer::LazyTileSource::from_serialized_bitmap(blob.clone())
            .unwrap();
    assert_eq!(source.tile_keys(), vec![(0, 0)]);
    assert!(source.decompress_tile(0, 0).is_none());

    // The eager decoder, which must decode every payload, rejects the blob.
    assert_eq!(
        deserialize_journey_bitmap(blob.as_slice()).unwrap_err(),
        CodecError::TileDecompressionFailed(0, 0)
    );
}

#[test]
fn corrupt_payload_reports_its_tile() {
    // A payload of the wrong length fails with the tile's coordinates.
    assert_eq!(
        deserialize_tile(&[1, 0, 1], 7, 9).unwrap_err(),
        CodecError::TileDecompressionFailed(7, 9)
    );
}
