use anvil_region::coords::{
    chunk_coords_inside_region, chunk_coords_to_region_coords, metadata_index, RegionAndOffset,
};

#[test]
fn test_chunk_to_region() {
    // Chunk (0, 0) is in region (0, 0) at offset (0, 0)
    assert_eq!(
        RegionAndOffset::from_chunk(0, 0),
        RegionAndOffset {
            region_x: 0,
            region_z: 0,
            region_chunk_x: 0,
            region_chunk_z: 0,
        }
    );

    // Chunk (0, 1) is in region (0, 0) at offset (0, 1)
    assert_eq!(
        RegionAndOffset::from_chunk(0, 1),
        RegionAndOffset {
            region_x: 0,
            region_z: 0,
            region_chunk_x: 0,
            region_chunk_z: 1,
        }
    );

    // Chunk (0, -1) is in region (0, -1) at offset (0, 31)
    assert_eq!(
        RegionAndOffset::from_chunk(0, -1),
        RegionAndOffset {
            region_x: 0,
            region_z: -1,
            region_chunk_x: 0,
            region_chunk_z: 31,
        }
    );

    // Chunk (30, -3) is in region (0, -1) at offset (30, 29)
    assert_eq!(
        RegionAndOffset::from_chunk(30, -3),
        RegionAndOffset {
            region_x: 0,
            region_z: -1,
            region_chunk_x: 30,
            region_chunk_z: 29,
        }
    );

    // Chunk (70, -30) is in region (2, -1) at offset (6, 2)
    assert_eq!(
        RegionAndOffset::from_chunk(70, -30),
        RegionAndOffset {
            region_x: 2,
            region_z: -1,
            region_chunk_x: 6,
            region_chunk_z: 2,
        }
    );
}

#[test]
fn coord_split_negatives() {
    assert_eq!(chunk_coords_to_region_coords(0, -1), (0, -1));
    assert_eq!(chunk_coords_inside_region(0, -1), (0, 31));
    assert_eq!(chunk_coords_to_region_coords(70, -30), (2, -1));
    assert_eq!(chunk_coords_inside_region(70, -30), (6, 2));
}

#[test]
fn coord_split_recombines() {
    for &(cx, cz) in &[
        (0i32, 0i32),
        (-1, -1),
        (31, 31),
        (32, -33),
        (i32::MAX, i32::MIN),
        (-123456, 654321),
    ] {
        let (rx, rz) = chunk_coords_to_region_coords(cx, cz);
        let (lx, lz) = chunk_coords_inside_region(cx, cz);
        assert!(lx < 32 && lz < 32);
        assert_eq!(rx * 32 + lx as i32, cx);
        assert_eq!(rz * 32 + lz as i32, cz);
    }
}

#[test]
fn metadata_index_layout() {
    assert_eq!(metadata_index(0, 0), 0);
    assert_eq!(metadata_index(31, 0), 31);
    assert_eq!(metadata_index(0, 1), 32);
    assert_eq!(metadata_index(15, 15), 495);
    assert_eq!(metadata_index(31, 31), 1023);
}
