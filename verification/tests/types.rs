use minedmap::error::{Error, ErrorContext, ErrorKind};
use minedmap::resource::{Biome, BiomeTypes, BlockFlag, BlockType};
use minedmap::types::{
    BlockX, BlockY, BlockZ, ChunkArray, ChunkCoords, ChunkX, ChunkZ, LayerBlockArray,
    LayerBlockCoords, SectionBlockCoords,
};

#[test]
fn offsets_exact_values() {
    let xz = LayerBlockCoords { x: BlockX::new(3), z: BlockZ::new(5) };
    assert_eq!(xz.offset(), 83);
    let coords = SectionBlockCoords { xz, y: BlockY::new(2) };
    assert_eq!(coords.offset(), 595);
    let last = SectionBlockCoords {
        xz: LayerBlockCoords { x: BlockX::new(15), z: BlockZ::new(15) },
        y: BlockY::new(15),
    };
    assert_eq!(last.offset(), 4095);
    let chunk = ChunkCoords { x: ChunkX::new(7), z: ChunkZ::new(2) };
    assert_eq!(chunk.offset(), 71);
    let corner = ChunkCoords { x: ChunkX::new(31), z: ChunkZ::new(31) };
    assert_eq!(corner.offset(), 1023);
}

#[test]
fn layer_block_array_cells() {
    let mut grid: LayerBlockArray<u8> = LayerBlockArray::filled(7);
    let a = LayerBlockCoords { x: BlockX::new(1), z: BlockZ::new(0) };
    let b = LayerBlockCoords { x: BlockX::new(0), z: BlockZ::new(1) };
    assert_eq!(*grid.get(a), 7);
    grid.set(a, 9);
    assert_eq!(*grid.get(a), 9);
    assert_eq!(*grid.get(b), 7);
    for x in 0..16 {
        for z in 0..16 {
            let coords = LayerBlockCoords { x: BlockX::new(x), z: BlockZ::new(z) };
            let expected: u8 = if (x, z) == (1, 0) { 9 } else { 7 };
            assert_eq!(*grid.get(coords), expected);
        }
    }
}

#[test]
fn chunk_array_cells() {
    let mut grid: ChunkArray<Option<u32>> = ChunkArray::empty();
    let a = ChunkCoords { x: ChunkX::new(31), z: ChunkZ::new(0) };
    let b = ChunkCoords { x: ChunkX::new(0), z: ChunkZ::new(31) };
    assert_eq!(*grid.get(a), None);
    grid.set(a, Some(5));
    grid.set(b, Some(6));
    grid.set(a, Some(7));
    assert_eq!(*grid.get(a), Some(7));
    assert_eq!(*grid.get(b), Some(6));
    let mut present: usize = 0;
    for x in 0..32 {
        for z in 0..32 {
            if grid.get(ChunkCoords { x: ChunkX::new(x), z: ChunkZ::new(z) }).is_some() {
                present += 1;
            }
        }
    }
    assert_eq!(present, 2);
}

#[test]
fn block_type_flags() {
    let water = BlockType { id: 2, opaque: true, water: true };
    assert!(water.is(BlockFlag::Opaque));
    assert!(water.is(BlockFlag::Water));
    let glass = BlockType { id: 3, opaque: false, water: false };
    assert!(!glass.is(BlockFlag::Opaque));
    assert!(!glass.is(BlockFlag::Water));
}

#[test]
fn biome_catalog_lookup() {
    let mut biome_types = BiomeTypes::new();
    assert_eq!(biome_types.get(&String::from("minecraft:plains")), None);
    biome_types.insert(String::from("minecraft:plains"), Biome { id: 1 });
    biome_types.insert(String::from("minecraft:desert"), Biome { id: 2 });
    biome_types.insert(String::from("minecraft:plains"), Biome { id: 3 });
    assert_eq!(biome_types.get(&String::from("minecraft:plains")), Some(Biome { id: 3 }));
    assert_eq!(biome_types.get(&String::from("minecraft:desert")), Some(Biome { id: 2 }));
    assert_eq!(biome_types.get(&String::from("")), None);
}

#[test]
fn error_of_a_chunk() {
    assert_eq!(
        ErrorKind::MissingBiomes.at_chunk(),
        Error { kind: ErrorKind::MissingBiomes, context: ErrorContext::Chunk }
    );
}
