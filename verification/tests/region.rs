use minedmap::error::{Error, ErrorContext, ErrorKind, RegionError};
use minedmap::region::{process_chunk, process_region};
use minedmap::resource::{BiomeTypes, BlockType, BlockTypes};
use minedmap::types::{BlockX, BlockZ, ChunkCoords, ChunkX, ChunkZ, LayerBlockCoords};
use minedmap::world::de;
use minedmap::world::layer::{BlockHeight, BlockInfo};

const STONE: BlockType = BlockType { id: 1, opaque: true, water: false };
const SAND: BlockType = BlockType { id: 4, opaque: true, water: false };

fn catalog() -> BlockTypes {
    let mut block_types = BlockTypes::new();
    block_types.insert(String::from("minecraft:stone"), STONE);
    block_types.insert(String::from("minecraft:sand"), SAND);
    block_types
}

fn at(x: u32, z: u32) -> ChunkCoords {
    ChunkCoords { x: ChunkX::new(x), z: ChunkZ::new(z) }
}

fn filled(y: i32, name: &str) -> de::Chunk {
    de::Chunk {
        data_version: Some(3000),
        chunk: de::ChunkVariants::V1_18 {
            sections: vec![de::SectionV1_18 {
                y,
                block_states: de::BlockStatesV1_18 {
                    palette: vec![de::BlockStatePaletteEntry { name: String::from(name) }],
                    data: None,
                },
                biomes: de::BiomesV1_18 { palette: vec![String::from("x")], data: None },
                block_light: None,
            }],
        },
    }
}

fn without_sections() -> de::Chunk {
    de::Chunk { data_version: Some(3000), chunk: de::ChunkVariants::V1_18 { sections: vec![] } }
}

fn broken() -> de::Chunk {
    let mut chunk = filled(0, "minecraft:stone");
    if let de::ChunkVariants::V1_18 { sections } = &mut chunk.chunk {
        sections[0].block_light = Some(vec![0; 7]);
    }
    chunk
}

fn corner() -> LayerBlockCoords {
    LayerBlockCoords { x: BlockX::new(0), z: BlockZ::new(0) }
}

#[test]
fn process_chunk_gives_the_top_layer() {
    let block_types = catalog();
    let biome_types = BiomeTypes::new();
    let layer = process_chunk(&filled(2, "minecraft:stone"), &block_types, &biome_types)
        .unwrap()
        .unwrap();
    assert_eq!(
        *layer.blocks.get(corner()),
        BlockInfo { block_type: Some(STONE), depth: Some(BlockHeight(47)) }
    );
    assert!(process_chunk(&without_sections(), &block_types, &biome_types).unwrap().is_none());
    assert_eq!(
        process_chunk(&broken(), &block_types, &biome_types).err(),
        Some(Error { kind: ErrorKind::InvalidLightData, context: ErrorContext::SectionBlockLight(0) })
    );
    let high = filled(i32::MAX, "minecraft:stone");
    assert_eq!(
        process_chunk(&high, &block_types, &biome_types).err(),
        Some(Error { kind: ErrorKind::HeightOverflow, context: ErrorContext::Chunk })
    );
}

#[test]
fn process_region_fills_the_slots() {
    let block_types = catalog();
    let biome_types = BiomeTypes::new();
    let chunks = vec![
        (at(0, 0), filled(0, "minecraft:stone")),
        (at(31, 31), filled(1, "minecraft:sand")),
        (at(5, 9), without_sections()),
        (at(7, 2), filled(0, "minecraft:stone")),
        (at(7, 2), filled(3, "minecraft:sand")),
    ];
    let region = process_region(&chunks, &block_types, &biome_types).unwrap();
    let first = region.get(at(0, 0)).as_ref().unwrap();
    assert_eq!(
        *first.blocks.get(corner()),
        BlockInfo { block_type: Some(STONE), depth: Some(BlockHeight(15)) }
    );
    let last = region.get(at(31, 31)).as_ref().unwrap();
    assert_eq!(
        *last.blocks.get(corner()),
        BlockInfo { block_type: Some(SAND), depth: Some(BlockHeight(31)) }
    );
    assert!(region.get(at(5, 9)).is_none());
    // The later chunk of a slot takes the place of the earlier one.
    let replaced = region.get(at(7, 2)).as_ref().unwrap();
    assert_eq!(
        *replaced.blocks.get(corner()),
        BlockInfo { block_type: Some(SAND), depth: Some(BlockHeight(63)) }
    );
    let mut present: usize = 0;
    for x in 0..32 {
        for z in 0..32 {
            if region.get(at(x, z)).is_some() {
                present += 1;
            }
        }
    }
    assert_eq!(present, 3);
}

#[test]
fn process_region_without_chunks() {
    let block_types = catalog();
    let biome_types = BiomeTypes::new();
    let region = process_region(&vec![], &block_types, &biome_types).unwrap();
    for x in 0..32 {
        for z in 0..32 {
            assert!(region.get(at(x, z)).is_none());
        }
    }
}

#[test]
fn process_region_fails_with_the_first_bad_chunk() {
    let block_types = catalog();
    let biome_types = BiomeTypes::new();
    let chunks = vec![
        (at(1, 1), filled(0, "minecraft:stone")),
        (at(4, 20), broken()),
        (at(9, 9), filled(i32::MAX, "minecraft:stone")),
    ];
    assert_eq!(
        process_region(&chunks, &block_types, &biome_types).err(),
        Some(RegionError {
            coords: at(4, 20),
            error: Error {
                kind: ErrorKind::InvalidLightData,
                context: ErrorContext::SectionBlockLight(0)
            }
        })
    );
}
