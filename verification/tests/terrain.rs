use kairos::terrain::{chunk_generator, chunk_origins_around, TerrainChunks, CHUNK_BASE_Y, CHUNK_RANGE, CHUNK_SIZE};
use kairos::grid::GridPoint;

#[test]
fn chunk_constants() {
    assert_eq!(CHUNK_SIZE, 32);
    assert_eq!(CHUNK_RANGE, 8);
    assert_eq!(CHUNK_BASE_Y, -8);
}

#[test]
fn origins_around_scan_rows_of_x() {
    let keys = chunk_origins_around(0, 0);
    assert_eq!(keys.len(), 64);
    assert_eq!(keys[0], (-128, -128));
    assert_eq!(keys[1], (-96, -128));
    assert_eq!(keys[7], (96, -128));
    assert_eq!(keys[8], (-128, -96));
    assert_eq!(keys[63], (96, 96));
    let shifted = chunk_origins_around(64, -32);
    assert_eq!(shifted[0], (-64, -160));
    assert_eq!(shifted[63], (160, 64));
    for i in 0..64 {
        for j in 0..i {
            assert_ne!(keys[i], keys[j]);
        }
    }
}

#[test]
fn registered_chunks_are_loaded() {
    let mut t = TerrainChunks::new();
    assert!(!t.is_loaded((0, 0)));
    t.register((0, 0), 17);
    assert!(t.is_loaded((0, 0)));
    assert!(!t.is_loaded((32, 0)));
    t.register((0, 0), 18);
    assert!(t.is_loaded((0, 0)));
}

#[test]
fn missing_chunks_skip_loaded_ones() {
    let mut t = TerrainChunks::new();
    let all = t.missing_around(0, 0);
    assert_eq!(all, chunk_origins_around(0, 0));
    t.register((-128, -128), 1);
    t.register((96, 96), 2);
    t.register((5000, 5000), 3);
    let rest = t.missing_around(0, 0);
    assert_eq!(rest.len(), 62);
    assert_eq!(rest[0], (-96, -128));
    assert_eq!(rest[61], (64, 96));
    for (i, key) in rest.iter().enumerate() {
        t.register(*key, 100 + i as u64);
    }
    assert!(t.missing_around(0, 0).is_empty());
    // one chunk step further: a new row of eight appears
    let next = t.missing_around(0, 32);
    assert_eq!(next.len(), 8);
    assert!(next.iter().all(|k| k.1 == 128));
}

#[test]
fn chunk_blocks_overlap_by_one_cell() {
    let dc = chunk_generator((32, -64));
    assert_eq!(dc.cells(), 33);
    assert_eq!(dc.world_point(0, 0, 0), GridPoint::new(32, -8, -64));
    assert_eq!(dc.world_point(33, 33, 33), GridPoint::new(65, 25, -31));
}
