use anvil_region::bits::used_sectors;
use anvil_region::metadata::AnvilChunkMetadata;

/// Packs the first bits of the bitmap into one integer, least significant
/// bit first, as the underlying bit-vector stores them.
fn first_word(bools: &[bool]) -> u64 {
    let mut word: u64 = 0;
    for (i, &b) in bools.iter().enumerate().take(64) {
        if b {
            word |= 1 << i;
        }
    }
    word
}

#[test]
fn test_used_sectors_only_header() {
    let empty_chunks_metadata = Vec::new();
    let used_sectors = used_sectors(8, &empty_chunks_metadata);

    // Two sectors are used for header data.
    assert_eq!(first_word(&used_sectors.to_bools()), 0b00000011);
}

#[test]
fn test_used_sectors_all() {
    let chunks_metadata = vec![AnvilChunkMetadata::new(2, 6, 0)];
    let used_sectors = used_sectors(8, &chunks_metadata);

    assert_eq!(first_word(&used_sectors.to_bools()), 0b11111111);
}

#[test]
fn test_used_sectors_partially() {
    let chunks_metadata = vec![
        AnvilChunkMetadata::new(3, 3, 0),
        AnvilChunkMetadata::new(8, 1, 0),
    ];

    let used_sectors = used_sectors(10, &chunks_metadata);

    assert_eq!(first_word(&used_sectors.to_bools()), 0b100111011);
}

#[test]
fn used_sectors_length_tracks_total() {
    let used = used_sectors(12, &[AnvilChunkMetadata::new(5, 2, 7)]);
    let bools = used.to_bools();
    assert_eq!(bools.len(), 12);
    assert_eq!(used.len(), 12);
    for (i, &b) in bools.iter().enumerate() {
        let expected = i == 0 || i == 1 || (5..7).contains(&i);
        assert_eq!(b, expected);
    }
}
