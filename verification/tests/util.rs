use minedmap::types::{BlockX, BlockZ, ChunkX, ChunkZ, BLOCKS_PER_CHUNK, CHUNKS_PER_REGION};
use minedmap::util::{coord_offset, ShiftMask};

#[test]
fn test_coord_offset() {
    const CHUNKS: i32 = CHUNKS_PER_REGION as i32;
    const BLOCKS: i32 = BLOCKS_PER_CHUNK as i32;

    for chunk in ChunkX::iter() {
        for block in BlockX::iter() {
            assert_eq!(coord_offset(chunk, block, 0), (0, chunk, block));
            assert_eq!(
                coord_offset(chunk, block, -(CHUNKS * BLOCKS)),
                (-1, chunk, block)
            );
            assert_eq!(
                coord_offset(chunk, block, CHUNKS * BLOCKS),
                (1, chunk, block)
            );

            for offset in -(CHUNKS * BLOCKS)..(CHUNKS * BLOCKS) {
                let (region2, chunk2, block2) = coord_offset(chunk, block, offset);
                assert!((-1..=1).contains(&region2));
                let coord: i32 = chunk.0 as i32 * BLOCKS + block.0 as i32 + offset;
                let coord2: i32 =
                    ((region2 as i32 * CHUNKS) + chunk2.0 as i32) * BLOCKS + block2.0 as i32;
                assert_eq!(coord2, coord);
            }
        }
    }
}

#[test]
fn coord_offset_crosses_region_borders() {
    let chunk = ChunkZ::new(31);
    let block = BlockZ::new(15);
    assert_eq!(
        coord_offset(chunk, block, 1),
        (1, ChunkZ::new(0), BlockZ::new(0))
    );
    let chunk = ChunkZ::new(0);
    let block = BlockZ::new(0);
    assert_eq!(
        coord_offset(chunk, block, -1),
        (-1, ChunkZ::new(31), BlockZ::new(15))
    );
    assert_eq!(
        coord_offset(ChunkZ::new(3), BlockZ::new(7), 20),
        (0, ChunkZ::new(4), BlockZ::new(11))
    );
}

#[test]
fn shift_mask_unsigned_exact_values() {
    assert_eq!(0xabcd_u32.shift_mask(4), (0xabc, 0xd));
    assert_eq!(0xffff_ffff_u32.shift_mask(31), (1, 0x7fff_ffff));
    assert_eq!(1234_u32.shift_mask(0), (1234, 0));
}

#[test]
fn shift_mask_signed_exact_values() {
    assert_eq!(37_i32.shift_mask(4), (2, 5));
    assert_eq!((-1_i32).shift_mask(4), (-1, 15));
    assert_eq!((-512_i32).shift_mask(4), (-32, 0));
    assert_eq!((-17_i32).shift_mask(5), (-1, 15));
    assert_eq!(i32::MIN.shift_mask(31), (-1, 0));
}

#[test]
fn shift_mask_reassembles_unsigned() {
    let values: [u32; 6] = [0, 1, 0xdead_beef, 0x8000_0000, 0xffff_ffff, 12345];
    for value in values {
        for shift in 0u8..32 {
            let (upper, lower) = value.shift_mask(shift);
            assert_eq!((upper << shift) | lower, value);
        }
    }
}

#[test]
fn shift_mask_reassembles_signed() {
    let values: [i32; 7] = [0, 1, -1, i32::MIN, i32::MAX, -123456, 98765];
    for value in values {
        for shift in 0u8..32 {
            let (upper, lower) = value.shift_mask(shift);
            assert_eq!((upper << shift) | (lower as i32), value);
        }
    }
}

#[test]
fn coordinate_lists_are_complete() {
    let chunks = ChunkX::iter();
    assert_eq!(chunks.len(), 32);
    assert_eq!(chunks[0], ChunkX::new(0));
    assert_eq!(chunks[31], ChunkX::new(31));
    let blocks = BlockX::iter();
    assert_eq!(blocks.len(), 16);
    assert_eq!(blocks[15], BlockX::new(15));
}
