use minedmap::error::{Error, ErrorContext, ErrorKind};
use minedmap::resource::{Biome, BiomeTypes, BlockType, BlockTypes};
use minedmap::types::{BlockX, BlockY, BlockZ, LayerBlockCoords, SectionBlockCoords, SectionY};
use minedmap::world::chunk::Chunk;
use minedmap::world::de;
use minedmap::world::section::{Biomes, Section};

const STONE: BlockType = BlockType { id: 1, opaque: true, water: false };
const SAND: BlockType = BlockType { id: 4, opaque: true, water: false };

fn coords(x: u32, y: u32, z: u32) -> SectionBlockCoords {
    SectionBlockCoords {
        xz: LayerBlockCoords { x: BlockX::new(x), z: BlockZ::new(z) },
        y: BlockY::new(y),
    }
}

fn catalog() -> BlockTypes {
    let mut block_types = BlockTypes::new();
    block_types.insert(String::from("minecraft:stone"), STONE);
    block_types.insert(String::from("minecraft:sand"), SAND);
    block_types.insert_legacy(1, 0, STONE);
    block_types.insert_legacy(12, 0, SAND);
    block_types
}

fn biome_catalog() -> BiomeTypes {
    let mut biome_types = BiomeTypes::new();
    biome_types.insert(String::from("minecraft:plains"), Biome { id: 1 });
    biome_types
}

fn palette(names: &[&str]) -> Vec<de::BlockStatePaletteEntry> {
    names
        .iter()
        .map(|name| de::BlockStatePaletteEntry { name: String::from(*name) })
        .collect()
}

fn section_v1_18(y: i32, names: &[&str]) -> de::SectionV1_18 {
    de::SectionV1_18 {
        y,
        block_states: de::BlockStatesV1_18 { palette: palette(names), data: None },
        biomes: de::BiomesV1_18 { palette: vec![String::from("minecraft:plains")], data: None },
        block_light: None,
    }
}

fn chunk_v1_18(sections: Vec<de::SectionV1_18>) -> de::Chunk {
    de::Chunk { data_version: Some(3000), chunk: de::ChunkVariants::V1_18 { sections } }
}

fn palette_section(y: i8, names: &[&str]) -> de::SectionV0 {
    de::SectionV0 {
        y,
        block_light: None,
        section: de::SectionV0Variants::V1_13 {
            block_states: vec![0; 256],
            palette: palette(names),
        },
    }
}

fn numbered_section(y: i8, block: i8) -> de::SectionV0 {
    de::SectionV0 {
        y,
        block_light: None,
        section: de::SectionV0Variants::V0 { blocks: vec![block; 4096], data: vec![0; 2048] },
    }
}

fn empty_section(y: i8) -> de::SectionV0 {
    de::SectionV0 { y, block_light: None, section: de::SectionV0Variants::Empty {} }
}

fn chunk_v0(sections: Vec<de::SectionV0>, biomes: Option<de::BiomesV0>) -> de::Chunk {
    de::Chunk {
        data_version: Some(2600),
        chunk: de::ChunkVariants::V0 { level: de::LevelV0 { sections, biomes } },
    }
}

fn at_chunk(kind: ErrorKind) -> Error {
    Error { kind, context: ErrorContext::Chunk }
}

#[test]
fn chunk_v1_18_sections_in_ascending_order() {
    let block_types = catalog();
    let biome_types = biome_catalog();
    let data = chunk_v1_18(vec![
        section_v1_18(3, &["minecraft:stone"]),
        section_v1_18(-4, &["minecraft:sand"]),
        section_v1_18(0, &["air"]),
    ]);
    let chunk = Chunk::new(&data, &block_types, &biome_types).unwrap();
    assert!(matches!(chunk, Chunk::V1_18 { .. }));
    assert!(!chunk.is_empty());
    let mut sections = chunk.sections();
    assert_eq!(sections.len(), 3);
    assert_eq!(sections.size_hint(), (3, Some(3)));
    let lowest = sections.next().unwrap();
    assert_eq!(lowest.y, SectionY(-4));
    assert_eq!(lowest.section.block_at(coords(1, 2, 3)), Ok(Some(SAND)));
    assert_eq!(
        lowest.biomes.biome_at(lowest.y, coords(1, 2, 3)),
        Ok(Some(Biome { id: 1 }))
    );
    let highest = sections.next_back().unwrap();
    assert_eq!(highest.y, SectionY(3));
    assert_eq!(highest.section.block_at(coords(1, 2, 3)), Ok(Some(STONE)));
    assert_eq!(sections.len(), 1);
    let middle = sections.next().unwrap();
    assert_eq!(middle.y, SectionY(0));
    assert_eq!(middle.section.block_at(coords(1, 2, 3)), Ok(None));
    assert!(sections.next().is_none());
    assert!(sections.next_back().is_none());
    assert_eq!(sections.len(), 0);
}

#[test]
fn chunk_section_iter_last() {
    let block_types = catalog();
    let biome_types = biome_catalog();
    let data = chunk_v1_18(vec![
        section_v1_18(1, &["air"]),
        section_v1_18(7, &["air"]),
        section_v1_18(5, &["air"]),
    ]);
    let chunk = Chunk::new(&data, &block_types, &biome_types).unwrap();
    assert_eq!(chunk.sections().last().unwrap().y, SectionY(7));
    let empty = chunk_v1_18(vec![]);
    let chunk = Chunk::new(&empty, &block_types, &biome_types).unwrap();
    assert!(chunk.sections().last().is_none());
}

#[test]
fn chunk_later_section_replaces_earlier_one() {
    let block_types = catalog();
    let biome_types = biome_catalog();
    let data = chunk_v1_18(vec![
        section_v1_18(2, &["minecraft:stone"]),
        section_v1_18(1, &["air"]),
        section_v1_18(2, &["minecraft:sand"]),
    ]);
    let chunk = Chunk::new(&data, &block_types, &biome_types).unwrap();
    let mut sections = chunk.sections();
    assert_eq!(sections.len(), 2);
    let top = sections.next_back().unwrap();
    assert_eq!(top.y, SectionY(2));
    assert_eq!(top.section.block_at(coords(0, 0, 0)), Ok(Some(SAND)));
}

#[test]
fn chunk_v1_18_without_sections_is_empty() {
    let block_types = catalog();
    let biome_types = biome_catalog();
    let data = chunk_v1_18(vec![]);
    let chunk = Chunk::new(&data, &block_types, &biome_types).unwrap();
    assert!(chunk.is_empty());
    assert_eq!(chunk.sections().len(), 0);
}

#[test]
fn chunk_v1_18_errors_name_the_section() {
    let block_types = catalog();
    let biome_types = biome_catalog();

    let mut bad_blocks = section_v1_18(5, &["air"]);
    bad_blocks.block_states.data = Some(vec![0; 255]);
    let data = chunk_v1_18(vec![section_v1_18(1, &["air"]), bad_blocks]);
    assert_eq!(
        Chunk::new(&data, &block_types, &biome_types).err(),
        Some(Error { kind: ErrorKind::InvalidBlockData, context: ErrorContext::Section(5) })
    );

    let mut bad_biomes = section_v1_18(-2, &["air"]);
    bad_biomes.biomes.data = Some(vec![0; 2]);
    let data = chunk_v1_18(vec![bad_biomes]);
    assert_eq!(
        Chunk::new(&data, &block_types, &biome_types).err(),
        Some(Error { kind: ErrorKind::InvalidBiomeData, context: ErrorContext::SectionBiomes(-2) })
    );

    let mut bad_light = section_v1_18(9, &["air"]);
    bad_light.block_light = Some(vec![0; 100]);
    let data = chunk_v1_18(vec![bad_light]);
    assert_eq!(
        Chunk::new(&data, &block_types, &biome_types).err(),
        Some(Error {
            kind: ErrorKind::InvalidLightData,
            context: ErrorContext::SectionBlockLight(9)
        })
    );

    let mut long_palette = section_v1_18(4, &["air"]);
    long_palette.biomes.palette = (0..65).map(|i| format!("biome{}", i)).collect();
    let data = chunk_v1_18(vec![long_palette]);
    assert_eq!(
        Chunk::new(&data, &block_types, &biome_types).err(),
        Some(Error {
            kind: ErrorKind::UnsupportedPaletteSize,
            context: ErrorContext::SectionBiomes(4)
        })
    );
}

#[test]
fn chunk_first_failing_section_is_reported() {
    let block_types = catalog();
    let biome_types = biome_catalog();
    let mut first = section_v1_18(1, &["air"]);
    first.block_light = Some(vec![0; 1]);
    first.biomes.data = Some(vec![0; 9]);
    let mut second = section_v1_18(2, &["air"]);
    second.block_states.data = Some(vec![0; 1]);
    let data = chunk_v1_18(vec![first, second]);
    assert_eq!(
        Chunk::new(&data, &block_types, &biome_types).err(),
        Some(Error { kind: ErrorKind::InvalidBiomeData, context: ErrorContext::SectionBiomes(1) })
    );
}

#[test]
fn chunk_missing_data_version_counts_as_zero() {
    let block_types = catalog();
    let biome_types = biome_catalog();
    let mut section = section_v1_18(0, &["air"]);
    // 256 words are right for both layouts at four bits, so take a palette
    // of five bits: 320 words unaligned, 342 aligned.
    section.block_states.palette = palette(&[
        "a", "b", "c", "d", "e", "f", "g", "h", "i", "j", "k", "l", "m", "n", "o", "p", "q",
    ]);
    section.block_states.data = Some(vec![0; 320]);
    let data = de::Chunk {
        data_version: None,
        chunk: de::ChunkVariants::V1_18 { sections: vec![section] },
    };
    assert!(Chunk::new(&data, &block_types, &biome_types).is_ok());
}

#[test]
fn chunk_legacy_with_palettes() {
    let block_types = catalog();
    let biome_types = biome_catalog();
    let data = chunk_v0(
        vec![
            palette_section(4, &["minecraft:stone"]),
            empty_section(2),
            palette_section(-1, &["minecraft:sand"]),
        ],
        Some(de::BiomesV0::IntArray(vec![0; 256])),
    );
    let chunk = Chunk::new(&data, &block_types, &biome_types).unwrap();
    assert!(matches!(chunk, Chunk::V1_13 { .. }));
    let mut sections = chunk.sections();
    assert_eq!(sections.len(), 2);
    let top = sections.next_back().unwrap();
    assert_eq!(top.y, SectionY(4));
    assert_eq!(top.section.block_at(coords(0, 0, 0)), Ok(Some(STONE)));
    assert_eq!(top.biomes.biome_at(top.y, coords(0, 0, 0)), Ok(None));
    let bottom = sections.next_back().unwrap();
    assert_eq!(bottom.y, SectionY(-1));
    assert_eq!(bottom.section.block_at(coords(0, 0, 0)), Ok(Some(SAND)));
}

#[test]
fn chunk_legacy_with_numeric_ids() {
    let block_types = catalog();
    let biome_types = biome_catalog();
    let data = chunk_v0(
        vec![numbered_section(0, 1), numbered_section(1, 12)],
        Some(de::BiomesV0::ByteArray(vec![0; 256])),
    );
    let chunk = Chunk::new(&data, &block_types, &biome_types).unwrap();
    assert!(matches!(chunk, Chunk::V0 { .. }));
    let mut sections = chunk.sections();
    let bottom = sections.next().unwrap();
    assert_eq!(bottom.y, SectionY(0));
    assert_eq!(bottom.section.block_at(coords(9, 9, 9)), Ok(Some(STONE)));
    let top = sections.next().unwrap();
    assert_eq!(top.section.block_at(coords(9, 9, 9)), Ok(Some(SAND)));
}

#[test]
fn chunk_legacy_mixed_section_versions() {
    let block_types = catalog();
    let biome_types = biome_catalog();
    let data = chunk_v0(
        vec![palette_section(0, &["minecraft:stone"]), numbered_section(1, 1)],
        Some(de::BiomesV0::IntArray(vec![0; 256])),
    );
    assert_eq!(
        Chunk::new(&data, &block_types, &biome_types).err(),
        Some(at_chunk(ErrorKind::MixedSectionVersions))
    );
    // The mixture counts before the biomes do.
    let data = chunk_v0(
        vec![numbered_section(1, 1), palette_section(0, &["minecraft:stone"])],
        None,
    );
    assert_eq!(
        Chunk::new(&data, &block_types, &biome_types).err(),
        Some(at_chunk(ErrorKind::MixedSectionVersions))
    );
}

#[test]
fn chunk_legacy_without_sections_is_empty() {
    let block_types = catalog();
    let biome_types = biome_catalog();
    let data = chunk_v0(vec![], None);
    let chunk = Chunk::new(&data, &block_types, &biome_types).unwrap();
    assert!(matches!(chunk, Chunk::Empty));
    assert!(chunk.is_empty());
    let data = chunk_v0(
        vec![empty_section(0), empty_section(1)],
        Some(de::BiomesV0::IntArray(vec![0; 3])),
    );
    let chunk = Chunk::new(&data, &block_types, &biome_types).unwrap();
    assert!(matches!(chunk, Chunk::Empty));
    assert_eq!(chunk.sections().len(), 0);
}

#[test]
fn chunk_legacy_biomes_are_needed() {
    let block_types = catalog();
    let biome_types = biome_catalog();
    let data = chunk_v0(vec![numbered_section(0, 1)], None);
    assert_eq!(
        Chunk::new(&data, &block_types, &biome_types).err(),
        Some(at_chunk(ErrorKind::MissingBiomes))
    );
    let data = chunk_v0(
        vec![palette_section(0, &["air"])],
        Some(de::BiomesV0::IntArray(vec![0; 100])),
    );
    assert_eq!(
        Chunk::new(&data, &block_types, &biome_types).err(),
        Some(at_chunk(ErrorKind::InvalidBiomeData))
    );
}

#[test]
fn chunk_legacy_section_errors() {
    let block_types = catalog();
    let biome_types = biome_catalog();
    let mut bad_light = numbered_section(3, 1);
    bad_light.block_light = Some(vec![0; 2047]);
    bad_light.section = de::SectionV0Variants::V0 { blocks: vec![0; 1], data: vec![0; 1] };
    let data = chunk_v0(vec![bad_light], None);
    assert_eq!(
        Chunk::new(&data, &block_types, &biome_types).err(),
        Some(Error {
            kind: ErrorKind::InvalidLightData,
            context: ErrorContext::SectionBlockLight(3)
        })
    );
    let mut bad_blocks = numbered_section(-7, 1);
    bad_blocks.section = de::SectionV0Variants::V0 { blocks: vec![0; 4096], data: vec![0; 1] };
    let data = chunk_v0(vec![numbered_section(0, 1), bad_blocks], None);
    assert_eq!(
        Chunk::new(&data, &block_types, &biome_types).err(),
        Some(Error { kind: ErrorKind::InvalidBlockData, context: ErrorContext::Section(-7) })
    );
    let mut bad_palette = palette_section(6, &["air"]);
    bad_palette.section = de::SectionV0Variants::V1_13 {
        block_states: vec![0; 257],
        palette: palette(&["air"]),
    };
    let data = chunk_v0(vec![bad_palette], None);
    assert_eq!(
        Chunk::new(&data, &block_types, &biome_types).err(),
        Some(Error { kind: ErrorKind::InvalidBlockData, context: ErrorContext::Section(6) })
    );
}
