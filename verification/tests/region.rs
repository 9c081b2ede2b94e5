use anvil_region::coords::metadata_index;
use anvil_region::errors::{ChunkLoadError, ChunkSaveError};
use anvil_region::header::read_header;
use anvil_region::metadata::AnvilChunkMetadata;
use anvil_region::region::AnvilRegion;
use anvil_region::region_image_ok;
use nbt::CompoundTag;

const SECTOR: usize = 4096;
const HEADER: usize = 8192;

fn put_be_u32(image: &mut [u8], pos: usize, v: u32) {
    image[pos..pos + 4].copy_from_slice(&v.to_be_bytes());
}

fn set_header_entry(image: &mut [u8], slot: usize, sector_index: u32, sectors: u8, mtime: u32) {
    put_be_u32(image, slot * 4, (sector_index << 8) | sectors as u32);
    put_be_u32(image, 4096 + slot * 4, mtime);
}

fn zlib_tag_bytes(tag: &CompoundTag) -> Vec<u8> {
    let mut buf = Vec::new();
    nbt::encode::write_zlib_compound_tag(&mut buf, tag).unwrap();
    buf
}

fn bitmap_first_word(region: &AnvilRegion) -> u64 {
    let bools = region.used_sectors().to_bools();
    let mut word: u64 = 0;
    for (i, &b) in bools.iter().enumerate().take(64) {
        if b {
            word |= 1 << i;
        }
    }
    word
}

#[test]
fn test_empty_header_write_cursor() {
    let region = AnvilRegion::new(Vec::new());
    assert_eq!(region.data().len(), HEADER);
}

#[test]
fn test_empty_region_init() {
    let region = AnvilRegion::new(Vec::new());
    assert_eq!(region.data(), &vec![0u8; HEADER]);
}

#[test]
fn test_header_read() {
    let expected_data = vec![
        AnvilChunkMetadata::new(61, 2, 1570215508),
        AnvilChunkMetadata::new(102, 2, 1570215511),
        AnvilChunkMetadata::new(177, 2, 1570215515),
        AnvilChunkMetadata::new(265, 2, 1570215519),
        AnvilChunkMetadata::new(56, 2, 1570215508),
    ];

    let mut image = vec![0u8; 270 * SECTOR];
    for (index, m) in expected_data.iter().enumerate() {
        set_header_entry(
            &mut image,
            256 + index,
            m.sector_index,
            m.sectors,
            m.last_modified_timestamp,
        );
    }
    assert!(region_image_ok(&image));
    let region = AnvilRegion::new(image);

    for (index, expected_chunk_metadata) in expected_data.iter().enumerate() {
        // Slot 256 + index is local x = index, local z = 8.
        let chunk_metadata = region.get_metadata(index as u8, 8);
        assert_eq!(&chunk_metadata, expected_chunk_metadata);
    }
}

#[test]
fn test_read_chunk_data() {
    // Slot 256 holds the chunk at local coordinates (0, 8); its run starts
    // at sector 61, as in a region written by other tooling.
    let mut level = CompoundTag::new();
    level.insert_i32("xPos", 0);
    level.insert_i32("zPos", 8);
    let mut root = CompoundTag::new();
    root.insert_compound_tag("Level", level);
    let body = zlib_tag_bytes(&root);

    let mut image = vec![0u8; 270 * SECTOR];
    set_header_entry(&mut image, 256, 61, 2, 1570215508);
    let offset = 61 * SECTOR;
    put_be_u32(&mut image, offset, (body.len() + 1) as u32);
    image[offset + 4] = 2;
    image[offset + 5..offset + 5 + body.len()].copy_from_slice(&body);

    let region = AnvilRegion::new(image);
    let compound_tag = region.read_chunk(0, 8).unwrap();
    let level_tag = compound_tag.get_compound_tag("Level").unwrap();

    assert_eq!(level_tag.get_i32("xPos").unwrap(), 0);
    assert_eq!(level_tag.get_i32("zPos").unwrap(), 8);
}

#[test]
fn read_chunk_gzip_scheme() {
    let mut tag = CompoundTag::new();
    tag.insert_str("test_str", "gzip payload");
    let mut body = Vec::new();
    nbt::encode::write_gzip_compound_tag(&mut body, &tag).unwrap();

    let mut image = vec![0u8; 3 * SECTOR];
    set_header_entry(&mut image, 0, 2, 1, 0);
    put_be_u32(&mut image, 2 * SECTOR, (body.len() + 1) as u32);
    image[2 * SECTOR + 4] = 1;
    image[2 * SECTOR + 5..2 * SECTOR + 5 + body.len()].copy_from_slice(&body);

    let region = AnvilRegion::new(image);
    let read_tag = region.read_chunk(0, 0).unwrap();
    assert_eq!(read_tag.get_str("test_str").unwrap(), "gzip payload");
}

#[test]
fn test_read_chunk_empty() {
    let region = AnvilRegion::new(Vec::new());
    let load_error = region.read_chunk(0, 0).err().unwrap();

    match load_error {
        ChunkLoadError::ChunkNotFound { chunk_x, chunk_z } => {
            assert_eq!(chunk_x, 0);
            assert_eq!(chunk_z, 0);
        }
        _ => panic!("Expected `ChunkNotFound` but got `{:?}`", load_error),
    }
}

#[test]
fn read_chunk_length_exceeds_maximum() {
    let mut image = vec![0u8; 3 * SECTOR];
    set_header_entry(&mut image, 0, 2, 1, 0);
    put_be_u32(&mut image, 2 * SECTOR, 5000);

    let region = AnvilRegion::new(image);
    match region.read_chunk(0, 0).err().unwrap() {
        ChunkLoadError::LengthExceedsMaximum {
            length,
            maximum_length,
        } => {
            assert_eq!(length, 5000);
            assert_eq!(maximum_length, 4096);
        }
        e => panic!("Expected `LengthExceedsMaximum` but got `{:?}`", e),
    }
}

#[test]
fn read_chunk_zero_length_word() {
    let mut image = vec![0u8; 3 * SECTOR];
    set_header_entry(&mut image, 0, 2, 1, 0);

    let region = AnvilRegion::new(image);
    match region.read_chunk(0, 0).err().unwrap() {
        ChunkLoadError::ReadError { .. } => {}
        e => panic!("Expected `ReadError` but got `{:?}`", e),
    }
}

#[test]
fn read_chunk_unsupported_scheme() {
    let mut image = vec![0u8; 3 * SECTOR];
    set_header_entry(&mut image, 0, 2, 1, 0);
    put_be_u32(&mut image, 2 * SECTOR, 10);
    image[2 * SECTOR + 4] = 7;

    let region = AnvilRegion::new(image);
    match region.read_chunk(0, 0).err().unwrap() {
        ChunkLoadError::UnsupportedCompressionScheme { compression_scheme } => {
            assert_eq!(compression_scheme, 7);
        }
        e => panic!("Expected `UnsupportedCompressionScheme` but got `{:?}`", e),
    }
}

#[test]
fn read_chunk_garbage_payload() {
    let mut image = vec![0u8; 3 * SECTOR];
    set_header_entry(&mut image, 0, 2, 1, 0);
    put_be_u32(&mut image, 2 * SECTOR, 10);
    image[2 * SECTOR + 4] = 2;
    for k in 0..9 {
        image[2 * SECTOR + 5 + k] = 0xAB;
    }

    let region = AnvilRegion::new(image);
    match region.read_chunk(0, 0).err().unwrap() {
        ChunkLoadError::TagDecodeError { .. } => {}
        e => panic!("Expected `TagDecodeError` but got `{:?}`", e),
    }
}

#[test]
fn test_update_metadata() {
    let mut region = AnvilRegion::new(Vec::new());

    let mut metadata = AnvilChunkMetadata::new(500, 10, 0);
    metadata.update_last_modified_timestamp();

    region.update_metadata(15, 15, metadata);
    let chunks_metadata = read_header(region.data());
    let metadata_index = metadata_index(15, 15);

    // In memory metadata.
    assert_eq!(region.get_metadata(15, 15), metadata);
    // Written to file metadata.
    assert_eq!(chunks_metadata[metadata_index], metadata);
}

#[test]
fn test_write_chunk_with_file_extend() {
    let mut region = AnvilRegion::new(Vec::new());

    let mut write_compound_tag = CompoundTag::new();
    write_compound_tag.insert_bool("test_bool", true);
    write_compound_tag.insert_str("test_str", "test");

    region.write_chunk(15, 15, write_compound_tag).unwrap();

    assert_eq!(region.data().len(), HEADER + SECTOR);
    assert_eq!(region.used_sectors().len(), 3);

    let read_compound_tag = region.read_chunk(15, 15).unwrap();

    assert!(read_compound_tag.get_bool("test_bool").unwrap());
    assert_eq!(read_compound_tag.get_str("test_str").unwrap(), "test");
}

#[test]
fn test_write_chunk_same_sector() {
    let mut region = AnvilRegion::new(Vec::new());

    let mut write_compound_tag_1 = CompoundTag::new();
    write_compound_tag_1.insert_bool("test_bool", true);
    write_compound_tag_1.insert_str("test_str", "test");
    write_compound_tag_1.insert_f32("test_f32", 1.23);

    region.write_chunk(15, 15, write_compound_tag_1).unwrap();
    let first_sector_index = region.get_metadata(15, 15).sector_index;

    let mut write_compound_tag_2 = CompoundTag::new();
    write_compound_tag_2.insert_bool("test_bool", true);
    write_compound_tag_2.insert_str("test_str", "test");

    region.write_chunk(15, 15, write_compound_tag_2).unwrap();

    assert_eq!(region.data().len(), HEADER + SECTOR);
    assert_eq!(region.used_sectors().len(), 3);
    assert_eq!(region.get_metadata(15, 15).sector_index, first_sector_index);

    let read_compound_tag = region.read_chunk(15, 15).unwrap();

    assert!(read_compound_tag.get_bool("test_bool").unwrap());
    assert_eq!(read_compound_tag.get_str("test_str").unwrap(), "test");
    assert!(!read_compound_tag.contains_key("test_f32"));
}

#[test]
fn test_write_chunk_same_sector_with_file_expand() {
    let mut region = AnvilRegion::new(Vec::new());

    let mut write_compound_tag_1 = CompoundTag::new();
    write_compound_tag_1.insert_bool("test_bool", true);
    write_compound_tag_1.insert_str("test_str", "test");

    region.write_chunk(15, 15, write_compound_tag_1).unwrap();

    let mut write_compound_tag_2 = CompoundTag::new();
    let mut i32_vec = Vec::new();

    // Extending chunk to second sector.
    // Due compression we need to write more than 1024 ints.
    for i in 0..3000 {
        i32_vec.push(i)
    }

    write_compound_tag_2.insert_i32_vec("test_i32_vec", i32_vec);

    region.write_chunk(15, 15, write_compound_tag_2).unwrap();

    assert_eq!(region.data().len(), HEADER + SECTOR * 2);
    assert_eq!(region.used_sectors().len(), 4);
}

#[test]
fn test_write_chunk_with_insert_in_middle() {
    // A region of five sectors where sector 3 is the only gap: slot (0, 0)
    // owns sector 2 and slot (1, 0) owns sector 4.
    let mut image = vec![0u8; 5 * SECTOR];
    set_header_entry(&mut image, 0, 2, 1, 0);
    set_header_entry(&mut image, 1, 4, 1, 0);
    let mut region = AnvilRegion::new(image);

    let mut write_compound_tag = CompoundTag::new();
    write_compound_tag.insert_bool("test_bool", true);
    write_compound_tag.insert_str("test_str", "test");

    region.write_chunk(15, 15, write_compound_tag).unwrap();

    // The chunk fills the gap: the file did not grow and sector 4 is still
    // taken by slot (1, 0).
    assert_eq!(region.get_metadata(15, 15).sector_index, 3);
    assert!(region.used_sectors().get(4));
    assert_eq!(region.data().len(), 5 * SECTOR);
    assert_eq!(region.used_sectors().len(), 5);
}

#[test]
fn test_write_chunk_not_enough_gap() {
    let mut region = AnvilRegion::new(Vec::new());

    let mut write_compound_tag_1 = CompoundTag::new();
    write_compound_tag_1.insert_bool("test_bool", true);
    write_compound_tag_1.insert_str("test_str", "test");

    region
        .write_chunk(15, 15, write_compound_tag_1.clone())
        .unwrap();

    region.write_chunk(0, 0, write_compound_tag_1).unwrap();

    let mut write_compound_tag_2 = CompoundTag::new();
    let mut i32_vec = Vec::new();

    // Extending chunk to second sector.
    // Due compression we need to write more than 1024 ints.
    for i in 0..3000 {
        i32_vec.push(i)
    }

    write_compound_tag_2.insert_i32_vec("test_i32_vec", i32_vec);

    region.write_chunk(15, 15, write_compound_tag_2).unwrap();

    assert_eq!(bitmap_first_word(&region), 0b00111011);
    assert_eq!(region.used_sectors().len(), 6);
    assert_eq!(region.data().len(), HEADER + SECTOR * 4);
}

#[test]
fn write_chunk_payload_round_trips_bytes() {
    let mut region = AnvilRegion::new(Vec::new());
    let mut payload = vec![2u8];
    payload.extend((0u16..5000).map(|v| (v % 251) as u8));

    region.write_chunk_payload(10, 3, &payload, 77).unwrap();

    let (scheme, body) = region.read_chunk_payload(10, 3).unwrap();
    assert_eq!(scheme, 2);
    assert_eq!(&body[..], &payload[1..]);
    assert_eq!(region.get_metadata(10, 3).last_modified_timestamp, 77);
}

#[test]
fn write_chunk_payload_too_large() {
    let mut region = AnvilRegion::new(Vec::new());
    // One byte past what 255 sectors can record.
    let payload = vec![0u8; 255 * 4096 - 4];

    match region.write_chunk_payload(0, 0, &payload, 0).err().unwrap() {
        ChunkSaveError::LengthExceedsMaximum { length } => {
            assert_eq!(length, 255 * 4096);
        }
        e => panic!("Expected `LengthExceedsMaximum` but got `{:?}`", e),
    }
    // Nothing changed.
    assert_eq!(region.data().len(), HEADER);
    assert!(region.get_metadata(0, 0).sector_index == 0);
}

#[test]
fn header_mirrors_after_write() {
    let mut region = AnvilRegion::new(Vec::new());

    let mut tag = CompoundTag::new();
    tag.insert_str("test_str", "mirrored");
    region.write_chunk(7, 9, tag).unwrap();

    // The on-disk header equals the in-memory table, so reopening the image
    // yields the same metadata.
    let reopened = AnvilRegion::new(region.data().clone());
    for z in 0..32u8 {
        for x in 0..32u8 {
            assert_eq!(reopened.get_metadata(x, z), region.get_metadata(x, z));
        }
    }
    let tag = reopened.read_chunk(7, 9).unwrap();
    assert_eq!(tag.get_str("test_str").unwrap(), "mirrored");
}

#[test]
fn write_chunk_with_explicit_timestamp() {
    let mut region = AnvilRegion::new(Vec::new());

    let mut tag = CompoundTag::new();
    tag.insert_bool("test_bool", false);
    region
        .write_chunk_with_timestamp(3, 4, tag, 1570215508)
        .unwrap();

    let metadata = region.get_metadata(3, 4);
    assert_eq!(metadata.last_modified_timestamp, 1570215508);
    assert_eq!(metadata.sector_index, 2);
    assert_eq!(metadata.sectors, 1);

    // The header words mirror the entry.
    let parsed = read_header(region.data());
    assert_eq!(parsed[metadata_index(3, 4)], metadata);
}

#[test]
fn region_image_ok_rejects_bad_headers() {
    // A run past the end of the file.
    let mut image = vec![0u8; 3 * SECTOR];
    set_header_entry(&mut image, 0, 2, 2, 0);
    assert!(!region_image_ok(&image));

    // A run inside the header sectors.
    let mut image = vec![0u8; 3 * SECTOR];
    set_header_entry(&mut image, 0, 1, 1, 0);
    assert!(!region_image_ok(&image));

    // Two overlapping runs.
    let mut image = vec![0u8; 6 * SECTOR];
    set_header_entry(&mut image, 0, 2, 2, 0);
    set_header_entry(&mut image, 1, 3, 1, 0);
    assert!(!region_image_ok(&image));

    // An image that is not a whole number of sectors.
    assert!(!region_image_ok(&vec![0u8; HEADER + 100]));

    // A short image is padded and accepted; a sane one is accepted.
    assert!(region_image_ok(&Vec::new()));
    assert!(region_image_ok(&vec![0u8; HEADER]));
    let mut image = vec![0u8; 6 * SECTOR];
    set_header_entry(&mut image, 0, 2, 2, 0);
    set_header_entry(&mut image, 1, 4, 2, 0);
    assert!(region_image_ok(&image));
}
