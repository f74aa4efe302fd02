use zero::format::{block_pair_offset, layout_for, IndexHeader, BLOCK, DIMS, HEADER, MAGIC, PAIRS, VERSION};

#[test]
fn header_is_64_bytes() {
    assert_eq!(core::mem::size_of::<IndexHeader>(), 64);
}

#[test]
fn layout_offsets() {
    let l = layout_for(8, 2);
    assert_eq!(l.centroids, 64);
    assert_eq!(l.bbox_min, 64 + 8 * DIMS * 2);
    assert_eq!(l.bbox_max, 64 + 2 * 8 * DIMS * 2);
    // offsets aligned to 4 after 3 i16 sections (each 8*14*2 = 224, total 672, +64 = 736, /4 ok)
    assert_eq!(l.offsets % 4, 0);
    assert!(l.total > l.blocks);
}

#[test]
fn pair_offsets() {
    assert_eq!(block_pair_offset(0, 0), 0);
    assert_eq!(block_pair_offset(1, 0), 1);
    assert_eq!(block_pair_offset(0, 1), 2);
    assert_eq!(block_pair_offset(2, 0), BLOCK * 2);
    assert_eq!(block_pair_offset(13, 7), 6 * BLOCK * 2 + 7 * 2 + 1);
}

#[test]
fn layout_of_every_section() {
    let l = layout_for(3, 5);
    assert_eq!(l.centroids, 64);
    assert_eq!(l.bbox_min, 148);
    assert_eq!(l.bbox_max, 232);
    assert_eq!(l.offsets, 316);
    assert_eq!(l.counts, 332);
    assert_eq!(l.labels, 344);
    assert_eq!(l.blocks, 384);
    assert_eq!(l.total, 1504);
}

#[test]
fn layout_of_an_empty_index() {
    let l = layout_for(0, 0);
    assert_eq!(l.offsets, 64);
    assert_eq!(l.total, 68);
}

#[test]
fn magic_spells_the_name() {
    assert_eq!(&MAGIC.to_le_bytes(), b"RH26ZERO");
    assert_eq!(VERSION, 1);
    assert_eq!(HEADER, 64);
    assert_eq!(PAIRS, 7);
}

#[test]
fn header_bytes() {
    let h = IndexHeader {
        magic: MAGIC,
        version: 1,
        n: 0x0102_0304,
        k: 2,
        total_blocks: 3,
        block_size: 8,
        dims: 14,
        reserved: [0, 0, 0, 0, 0, 0, 0, 9],
    };
    let b = h.to_bytes();
    assert_eq!(b.len(), 64);
    assert_eq!(&b[0..8], b"RH26ZERO");
    assert_eq!(&b[8..12], &[1, 0, 0, 0]);
    assert_eq!(&b[12..16], &[4, 3, 2, 1]);
    assert_eq!(&b[16..32], &[2, 0, 0, 0, 3, 0, 0, 0, 8, 0, 0, 0, 14, 0, 0, 0]);
    assert_eq!(&b[60..64], &[9, 0, 0, 0]);
    assert!(b[32..60].iter().all(|&x| x == 0));
}
