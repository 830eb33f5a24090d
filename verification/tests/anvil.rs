use fastnbt::anvil::{Builder, ChunkLocation, ChunkMeta, CompressionScheme, Error, Region, Result};
use fastnbt::bytes::IoError;

#[test]
fn invalid_offset() {
    let r = Builder::new().location(2, 1).build();
    let r = Region::new(r);
    match r.chunk_location(32, 32) {
        Err(Error::InvalidOffset(32, 32)) => {}
        _ => panic!("should error"),
    }
}

#[test]
fn invalid_offset_only_in_x() {
    let r = Builder::new().location(2, 1).build();
    let r = Region::new(r);
    match r.chunk_location(32, 0) {
        Err(Error::InvalidOffset(32, 0)) => {}
        _ => panic!("should error"),
    }
}

#[test]
fn invalid_offset_only_in_z() {
    let r = Builder::new().location(2, 1).build();
    let r = Region::new(r);
    match r.chunk_location(0, 32) {
        Err(Error::InvalidOffset(0, 32)) => {}
        _ => panic!("should error"),
    }
}

#[test]
fn offset_beyond_data_given() {
    let r = Builder::new().location(2, 1).build_unpadded();
    let r = Region::new(r);
    match r.chunk_location(1, 0) {
        Err(Error::IO(inner)) if inner == IoError::UnexpectedEof => {}
        o => panic!("should error {:?}", o),
    }
}

#[test]
fn first_location() -> Result<()> {
    let r = Builder::new().location(2, 1).build();
    let r = Region::new(r);

    assert_eq!(
        ChunkLocation {
            begin_sector: 2,
            sector_count: 1,
            x: 0,
            z: 0
        },
        r.chunk_location(0, 0)?
    );
    Ok(())
}

#[test]
fn empty_slot_is_chunk_not_found() {
    // The builder wrote one record; padding leaves every other slot zero.
    let r = Builder::new().location(2, 1).build();
    let r = Region::new(r);
    match r.chunk_location(1, 0) {
        Err(Error::ChunkNotFound) => {}
        o => panic!("expected ChunkNotFound, got {:?}", o),
    }
}

#[test]
fn location_round_trip_inner_slot() {
    // Slot index of (1, 1) is 1 + 32 * 1 = 33: write 33 empty records, then
    // the one sought, and read it back exactly.
    let mut b = Builder::new();
    for _ in 0..33 {
        b = b.location(0, 0);
    }
    b = b.location(7, 2);
    let r = Region::new(b.build());
    assert_eq!(
        ChunkLocation {
            begin_sector: 7,
            sector_count: 2,
            x: 1,
            z: 1
        },
        r.chunk_location(1, 1).unwrap()
    );
}

#[test]
fn builder_pads_to_whole_sector() {
    assert_eq!(Builder::new().build().len(), 4096);
    assert_eq!(Builder::new().location(2, 1).build().len(), 4096);
    assert_eq!(Builder::new().location(2, 1).build_unpadded().len(), 4);
}

#[test]
fn offset_is_truncated_to_24_bits() {
    let r = Region::new(Builder::new().location(0x0100_0002, 1).build());
    let loc = r.chunk_location(0, 0).unwrap();
    assert_eq!(loc.begin_sector, 2);
}

#[test]
fn load_chunk_returns_the_sectors() {
    let mut data = vec![0u8; 3 * 4096];
    data[2 * 4096] = 0xAB;
    data[3 * 4096 - 1] = 0xCD;
    let r = Region::new(data);
    let loc = ChunkLocation {
        begin_sector: 2,
        sector_count: 1,
        x: 0,
        z: 0,
    };
    let mut dest = Vec::new();
    r.load_chunk(&loc, &mut dest).unwrap();
    assert_eq!(dest.len(), 4096);
    assert_eq!(dest[0], 0xAB);
    assert_eq!(dest[4095], 0xCD);
}

#[test]
fn load_chunk_beyond_source_is_io_error() {
    let r = Region::new(vec![0u8; 4096]);
    let loc = ChunkLocation {
        begin_sector: 2,
        sector_count: 1,
        x: 0,
        z: 0,
    };
    let mut dest = vec![9u8];
    match r.load_chunk(&loc, &mut dest) {
        Err(Error::IO(IoError::UnexpectedEof)) => {}
        o => panic!("expected an I/O error, got {:?}", o),
    }
    assert_eq!(dest, vec![9u8]);
}

#[test]
fn chunk_meta_decodes_the_frame() {
    let meta = ChunkMeta::new(&[0, 0, 0, 42, 2, 9, 9]).unwrap();
    assert_eq!(meta.len, 42);
    assert_eq!(meta.compression_scheme, CompressionScheme::Zlib);

    let meta = ChunkMeta::new(&[0, 0, 1, 0, 1]).unwrap();
    assert_eq!(meta.len, 256);
    assert_eq!(meta.compression_scheme, CompressionScheme::Gzip);
}

#[test]
fn chunk_meta_unknown_scheme() {
    match ChunkMeta::new(&[0, 0, 0, 2, 3]) {
        Err(Error::InvalidChunkMeta) => {}
        o => panic!("expected InvalidChunkMeta, got {:?}", o),
    }
}

#[test]
fn chunk_meta_short_frame() {
    match ChunkMeta::new(&[0, 0, 0, 2]) {
        Err(Error::InsufficientData) => {}
        o => panic!("expected InsufficientData, got {:?}", o),
    }
}

#[test]
fn present_chunks_in_ascending_sector_order() {
    // Slots 0, 1, 2 filled with out-of-order sectors; slot 3 absent.
    let r = Region::new(
        Builder::new()
            .location(9, 1)
            .location(2, 1)
            .location(5, 2)
            .build(),
    );
    let locs = r.present_chunks();
    assert_eq!(locs.len(), 3);
    assert_eq!(
        locs[0],
        ChunkLocation { begin_sector: 2, sector_count: 1, x: 1, z: 0 }
    );
    assert_eq!(
        locs[1],
        ChunkLocation { begin_sector: 5, sector_count: 2, x: 2, z: 0 }
    );
    assert_eq!(
        locs[2],
        ChunkLocation { begin_sector: 9, sector_count: 1, x: 0, z: 0 }
    );
}

#[test]
fn chunk_payload_is_the_body_after_the_frame() {
    // len = 4 counts the scheme byte plus a three-byte body.
    let raw = [0, 0, 0, 4, 2, 0xAA, 0xBB, 0xCC, 0xDD];
    assert_eq!(fastnbt::anvil::chunk_payload(&raw).unwrap(), &[0xAA, 0xBB, 0xCC]);
}

#[test]
fn chunk_payload_truncated_body() {
    let raw = [0, 0, 0, 9, 2, 0xAA];
    match fastnbt::anvil::chunk_payload(&raw) {
        Err(Error::IO(IoError::UnexpectedEof)) => {}
        o => panic!("expected an I/O error, got {:?}", o),
    }
}
