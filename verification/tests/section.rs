use minedmap::error::ErrorKind;
use minedmap::resource::{Biome, BiomeTypes, BlockType, BlockTypes};
use minedmap::types::{BlockX, BlockY, BlockZ, LayerBlockCoords, SectionBlockCoords, SectionY};
use minedmap::world::de;
use minedmap::world::section::{
    palette_bits, Biomes, BiomesV0, BiomesV18, BlockLight, Section, SectionV0, SectionV1_13,
};

const STONE: BlockType = BlockType { id: 1, opaque: true, water: false };
const WATER: BlockType = BlockType { id: 2, opaque: true, water: true };
const GLASS: BlockType = BlockType { id: 3, opaque: false, water: false };

fn coords(x: u32, y: u32, z: u32) -> SectionBlockCoords {
    SectionBlockCoords {
        xz: LayerBlockCoords { x: BlockX::new(x), z: BlockZ::new(z) },
        y: BlockY::new(y),
    }
}

fn catalog() -> BlockTypes {
    let mut block_types = BlockTypes::new();
    block_types.insert(String::from("minecraft:stone"), STONE);
    block_types.insert(String::from("minecraft:water"), WATER);
    block_types.insert(String::from("minecraft:glass"), GLASS);
    block_types
}

fn palette(names: &[&str]) -> Vec<de::BlockStatePaletteEntry> {
    names
        .iter()
        .map(|name| de::BlockStatePaletteEntry { name: String::from(*name) })
        .collect()
}

fn numbered_palette(len: usize) -> Vec<de::BlockStatePaletteEntry> {
    (0..len)
        .map(|i| de::BlockStatePaletteEntry { name: format!("block{}", i) })
        .collect()
}

fn numbered_catalog(len: usize) -> BlockTypes {
    let mut block_types = BlockTypes::new();
    for i in 0..len {
        block_types.insert(
            format!("block{}", i),
            BlockType { id: i as u16, opaque: true, water: false },
        );
    }
    block_types
}

fn pack_aligned(indices: &[u64], bits: usize) -> Vec<i64> {
    let per_word: usize = 64 / bits;
    let mut words: Vec<i64> = Vec::new();
    for chunk in indices.chunks(per_word) {
        let mut word: u64 = 0;
        for (slot, index) in chunk.iter().enumerate() {
            word |= index << (slot * bits);
        }
        words.push(word as i64);
    }
    words
}

fn pack_unaligned(indices: &[u64], bits: usize) -> Vec<i64> {
    let mut words: Vec<u64> = vec![0; indices.len() * bits / 64];
    for (offset, index) in indices.iter().enumerate() {
        for bit in 0..bits {
            if (index >> bit) & 1 == 1 {
                let position: usize = offset * bits + bit;
                words[position / 64] |= 1 << (position % 64);
            }
        }
    }
    words.into_iter().map(|word| word as i64).collect()
}

fn test_indices(len: usize) -> Vec<u64> {
    (0..4096u64).map(|off| (off * 7 + off / 13) % (len as u64)).collect()
}

#[test]
fn palette_bits_exact_values() {
    assert_eq!(palette_bits(0, 4, 12), Some(4));
    assert_eq!(palette_bits(1, 4, 12), Some(4));
    assert_eq!(palette_bits(16, 4, 12), Some(4));
    assert_eq!(palette_bits(17, 4, 12), Some(5));
    assert_eq!(palette_bits(32, 4, 12), Some(5));
    assert_eq!(palette_bits(33, 4, 12), Some(6));
    assert_eq!(palette_bits(2049, 4, 12), Some(12));
    assert_eq!(palette_bits(2, 1, 6), Some(1));
    assert_eq!(palette_bits(3, 1, 6), Some(2));
    assert_eq!(palette_bits(5, 1, 6), Some(3));
}

#[test]
fn palette_bits_single_entry_gives_min() {
    assert_eq!(palette_bits(1, 4, 12), Some(4));
    assert_eq!(palette_bits(1, 1, 6), Some(1));
    assert_eq!(palette_bits(1, 0, 0), Some(0));
    assert_eq!(palette_bits(1, 9, 9), Some(9));
}

#[test]
fn palette_bits_full_palette_gives_max() {
    assert_eq!(palette_bits(4096, 4, 12), Some(12));
    assert_eq!(palette_bits(64, 1, 6), Some(6));
    assert_eq!(palette_bits(8, 3, 3), Some(3));
}

#[test]
fn palette_bits_overfull_palette_fails() {
    assert_eq!(palette_bits(4097, 4, 12), None);
    assert_eq!(palette_bits(65, 1, 6), None);
    assert_eq!(palette_bits(usize::MAX, 4, 12), None);
}

#[test]
fn palette_bits_without_a_width_between_the_bounds() {
    assert_eq!(palette_bits(1, 5, 4), None);
    assert_eq!(palette_bits(100, 12, 4), None);
}

#[test]
fn palette_bits_is_the_smallest_width() {
    for len in 0usize..5000 {
        match palette_bits(len, 4, 12) {
            Some(bits) => {
                assert!((4..=12).contains(&bits));
                assert!(1usize << bits >= len);
                if bits > 4 {
                    assert!(1usize << (bits - 1) < len);
                }
            }
            None => assert!(len > 4096),
        }
    }
}

#[test]
fn palette_bits_wide_bounds() {
    assert_eq!(palette_bits(usize::MAX, 0, 255), Some(usize::BITS as u8));
    assert_eq!(palette_bits(3, 70, 80), Some(70));
}

#[test]
fn section_length_aligned() {
    let block_types = numbered_catalog(0);
    let expected: [(usize, usize); 9] = [
        (16, 256),
        (32, 342),
        (64, 410),
        (128, 456),
        (256, 512),
        (512, 586),
        (1024, 683),
        (2048, 820),
        (4096, 820),
    ];
    for (len, words) in expected {
        let names = numbered_palette(len);
        let data: Vec<i64> = vec![0; words];
        assert!(SectionV1_13::new(2529, Some(&data), &names, &block_types).is_ok());
        let short: Vec<i64> = vec![0; words - 1];
        assert_eq!(
            SectionV1_13::new(2529, Some(&short), &names, &block_types).err(),
            Some(ErrorKind::InvalidBlockData)
        );
        let long: Vec<i64> = vec![0; words + 1];
        assert_eq!(
            SectionV1_13::new(3000, Some(&long), &names, &block_types).err(),
            Some(ErrorKind::InvalidBlockData)
        );
    }
}

#[test]
fn section_length_unaligned() {
    let block_types = numbered_catalog(0);
    let mut len: usize = 16;
    for bits in 4usize..=12 {
        let names = numbered_palette(len);
        let data: Vec<i64> = vec![0; 64 * bits];
        assert!(SectionV1_13::new(2528, Some(&data), &names, &block_types).is_ok());
        assert!(SectionV1_13::new(0, Some(&data), &names, &block_types).is_ok());
        let short: Vec<i64> = vec![0; 64 * bits - 1];
        assert_eq!(
            SectionV1_13::new(2528, Some(&short), &names, &block_types).err(),
            Some(ErrorKind::InvalidBlockData)
        );
        len *= 2;
    }
}

#[test]
fn section_bit_width() {
    let block_types = numbered_catalog(0);
    for (len, bits) in [(1usize, 4u8), (16, 4), (17, 5), (300, 9), (4096, 12)] {
        let names = numbered_palette(len);
        let section = SectionV1_13::new(3000, None, &names, &block_types).unwrap();
        assert_eq!(section.bits(), bits);
    }
    let biome_types = BiomeTypes::new();
    for (len, bits) in [(1usize, 1u8), (2, 1), (3, 2), (33, 6), (64, 6)] {
        let names: Vec<String> = (0..len).map(|i| format!("biome{}", i)).collect();
        let biomes = BiomesV18::new(None, &names, &biome_types).unwrap();
        assert_eq!(biomes.bits(), bits);
    }
}

#[test]
fn section_layout_switches_at_version_2529() {
    let block_types = numbered_catalog(0);
    let names = numbered_palette(17);
    let aligned: Vec<i64> = vec![0; 342];
    let unaligned: Vec<i64> = vec![0; 320];
    assert!(SectionV1_13::new(2529, Some(&aligned), &names, &block_types).is_ok());
    assert!(SectionV1_13::new(2528, Some(&aligned), &names, &block_types).is_err());
    assert!(SectionV1_13::new(2528, Some(&unaligned), &names, &block_types).is_ok());
    assert!(SectionV1_13::new(2529, Some(&unaligned), &names, &block_types).is_err());
}

#[test]
fn section_palette_too_long() {
    let block_types = numbered_catalog(0);
    let names = numbered_palette(4097);
    assert_eq!(
        SectionV1_13::new(3000, None, &names, &block_types).err(),
        Some(ErrorKind::UnsupportedPaletteSize)
    );
}

#[test]
fn section_without_data_reads_first_entry() {
    let block_types = catalog();
    let names = palette(&["minecraft:stone", "minecraft:water"]);
    let section = SectionV1_13::new(3000, None, &names, &block_types).unwrap();
    assert_eq!(section.block_at(coords(0, 0, 0)), Ok(Some(STONE)));
    assert_eq!(section.block_at(coords(15, 15, 15)), Ok(Some(STONE)));
}

#[test]
fn section_unknown_name_reads_as_absent() {
    let block_types = catalog();
    let names = palette(&["air", "minecraft:stone"]);
    let mut indices: Vec<u64> = vec![0; 4096];
    indices[1] = 1;
    let data = pack_aligned(&indices, 4);
    let section = SectionV1_13::new(3000, Some(&data), &names, &block_types).unwrap();
    assert_eq!(section.block_at(coords(0, 0, 0)), Ok(None));
    assert_eq!(section.block_at(coords(1, 0, 0)), Ok(Some(STONE)));
}

#[test]
fn section_round_trip_aligned() {
    for len in [2usize, 16, 17, 100, 129, 1000, 4096] {
        let block_types = numbered_catalog(len);
        let names = numbered_palette(len);
        let bits = palette_bits(len, 4, 12).unwrap() as usize;
        let indices = test_indices(len);
        let data = pack_aligned(&indices, bits);
        let section = SectionV1_13::new(2529, Some(&data), &names, &block_types).unwrap();
        for x in 0..16 {
            for z in 0..16 {
                for y in 0..16 {
                    let off = (y * 256 + z * 16 + x) as usize;
                    let expected = BlockType { id: indices[off] as u16, opaque: true, water: false };
                    assert_eq!(section.block_at(coords(x, y, z)), Ok(Some(expected)));
                }
            }
        }
    }
}

#[test]
fn section_round_trip_unaligned() {
    for len in [2usize, 16, 17, 100, 129, 1000, 4096] {
        let block_types = numbered_catalog(len);
        let names = numbered_palette(len);
        let bits = palette_bits(len, 4, 12).unwrap() as usize;
        let indices = test_indices(len);
        let data = pack_unaligned(&indices, bits);
        let section = SectionV1_13::new(2000, Some(&data), &names, &block_types).unwrap();
        for x in 0..16 {
            for z in 0..16 {
                for y in 0..16 {
                    let off = (y * 256 + z * 16 + x) as usize;
                    let expected = BlockType { id: indices[off] as u16, opaque: true, water: false };
                    assert_eq!(section.block_at(coords(x, y, z)), Ok(Some(expected)));
                }
            }
        }
    }
}

#[test]
fn section_unaligned_last_block_in_last_word() {
    let block_types = catalog();
    let names = palette(&["air", "minecraft:stone"]);
    let mut data: Vec<i64> = vec![0; 256];
    data[255] = (1u64 << 60) as i64;
    let section = SectionV1_13::new(2000, Some(&data), &names, &block_types).unwrap();
    assert_eq!(section.block_at(coords(15, 15, 15)), Ok(Some(STONE)));
    assert_eq!(section.block_at(coords(14, 15, 15)), Ok(None));
    let long: Vec<i64> = vec![0; 257];
    assert_eq!(
        SectionV1_13::new(2000, Some(&long), &names, &block_types).err(),
        Some(ErrorKind::InvalidBlockData)
    );
}

#[test]
fn section_unaligned_index_across_two_words() {
    let block_types = numbered_catalog(32);
    let names = numbered_palette(32);
    let mut data: Vec<i64> = vec![0; 320];
    // The index at offset 12 takes the bits 60..65: four in the first
    // word, one in the second.
    data[0] = (0b1011u64 << 60) as i64;
    data[1] = 0b1;
    let section = SectionV1_13::new(2000, Some(&data), &names, &block_types).unwrap();
    assert_eq!(
        section.block_at(coords(12, 0, 0)),
        Ok(Some(BlockType { id: 0b11011, opaque: true, water: false }))
    );
    assert_eq!(
        section.block_at(coords(11, 0, 0)),
        Ok(Some(BlockType { id: 0, opaque: true, water: false }))
    );
    assert_eq!(
        section.block_at(coords(13, 0, 0)),
        Ok(Some(BlockType { id: 0, opaque: true, water: false }))
    );
}

#[test]
fn section_negative_words_are_bit_patterns() {
    let block_types = numbered_catalog(16);
    let names = numbered_palette(16);
    let data: Vec<i64> = vec![-1; 256];
    let section = SectionV1_13::new(2529, Some(&data), &names, &block_types).unwrap();
    assert_eq!(
        section.block_at(coords(15, 0, 0)),
        Ok(Some(BlockType { id: 15, opaque: true, water: false }))
    );
    let section = SectionV1_13::new(2000, Some(&data), &names, &block_types).unwrap();
    assert_eq!(
        section.block_at(coords(7, 3, 9)),
        Ok(Some(BlockType { id: 15, opaque: true, water: false }))
    );
}

#[test]
fn section_index_behind_palette() {
    let block_types = catalog();
    let names = palette(&["minecraft:stone", "minecraft:water"]);
    let mut indices: Vec<u64> = vec![0; 4096];
    indices[5] = 2;
    indices[6] = 1;
    let data = pack_aligned(&indices, 4);
    let section = SectionV1_13::new(3000, Some(&data), &names, &block_types).unwrap();
    assert_eq!(section.block_at(coords(5, 0, 0)), Err(ErrorKind::PaletteIndexOutOfBounds));
    assert_eq!(section.block_at(coords(6, 0, 0)), Ok(Some(WATER)));
    assert_eq!(section.block_at(coords(4, 0, 0)), Ok(Some(STONE)));
}

#[test]
fn section_v0_lengths() {
    let block_types = BlockTypes::new();
    let blocks: Vec<i8> = vec![0; 4096];
    let data: Vec<i8> = vec![0; 2048];
    assert!(SectionV0::new(&blocks, &data, &block_types).is_ok());
    assert_eq!(
        SectionV0::new(&blocks[..4095], &data, &block_types).err(),
        Some(ErrorKind::InvalidBlockData)
    );
    assert_eq!(
        SectionV0::new(&blocks, &data[..2047], &block_types).err(),
        Some(ErrorKind::InvalidBlockData)
    );
}

#[test]
fn section_v0_lookup() {
    let mut block_types = BlockTypes::new();
    block_types.insert_legacy(1, 0, STONE);
    block_types.insert_legacy(200, 11, WATER);
    block_types.insert_legacy(200, 4, GLASS);
    let mut blocks: Vec<i8> = vec![0; 4096];
    let mut data: Vec<i8> = vec![0; 2048];
    // Offsets 256 (even) and 257 (odd) share the data byte 128.
    blocks[256] = 200u8 as i8;
    blocks[257] = 200u8 as i8;
    data[128] = 0x4bu8 as i8;
    blocks[4095] = 1;
    let section = SectionV0::new(&blocks, &data, &block_types).unwrap();
    assert_eq!(section.block_at(coords(0, 1, 0)), Ok(Some(WATER)));
    assert_eq!(section.block_at(coords(1, 1, 0)), Ok(Some(GLASS)));
    assert_eq!(section.block_at(coords(15, 15, 15)), Ok(Some(STONE)));
    assert_eq!(section.block_at(coords(0, 0, 0)), Ok(None));
}

#[test]
fn catalog_lookup() {
    let mut block_types = catalog();
    assert_eq!(block_types.get(&String::from("minecraft:stone")), Some(STONE));
    assert_eq!(block_types.get(&String::from("stone")), None);
    block_types.insert(String::from("minecraft:stone"), GLASS);
    assert_eq!(block_types.get(&String::from("minecraft:stone")), Some(GLASS));
    assert_eq!(block_types.get(&String::from("minecraft:water")), Some(WATER));
    assert_eq!(block_types.get_legacy(0, 0), None);
    assert_eq!(block_types.get_legacy(0, 16), None);
    block_types.insert_legacy(255, 15, STONE);
    assert_eq!(block_types.get_legacy(255, 15), Some(STONE));
    assert_eq!(block_types.get_legacy(255, 14), None);
    assert_eq!(block_types.get_legacy(255, 255), None);
}

#[test]
fn block_light_length() {
    let data: Vec<i8> = vec![0; 2048];
    assert!(BlockLight::new(Some(&data)).is_ok());
    assert!(BlockLight::new(None).is_ok());
    assert_eq!(
        BlockLight::new(Some(&data[..2047])).err(),
        Some(ErrorKind::InvalidLightData)
    );
    let long: Vec<i8> = vec![0; 2049];
    assert_eq!(BlockLight::new(Some(&long)).err(), Some(ErrorKind::InvalidLightData));
}

#[test]
fn block_light_nibbles() {
    let mut data: Vec<i8> = vec![0; 2048];
    data[0] = 0xa5u8 as i8;
    data[2047] = 0xf0u8 as i8;
    let light = BlockLight::new(Some(&data)).unwrap();
    assert_eq!(light.block_light_at(coords(0, 0, 0)), 5);
    assert_eq!(light.block_light_at(coords(1, 0, 0)), 10);
    assert_eq!(light.block_light_at(coords(14, 15, 15)), 0);
    assert_eq!(light.block_light_at(coords(15, 15, 15)), 15);
    let dark = BlockLight::new(None).unwrap();
    assert_eq!(dark.block_light_at(coords(3, 4, 5)), 0);
}

fn biome_catalog() -> BiomeTypes {
    let mut biome_types = BiomeTypes::new();
    biome_types.insert(String::from("minecraft:plains"), Biome { id: 1 });
    biome_types.insert(String::from("minecraft:desert"), Biome { id: 2 });
    biome_types.insert(String::from("minecraft:ocean"), Biome { id: 3 });
    biome_types
}

#[test]
fn biomes_v18_lengths() {
    let biome_types = biome_catalog();
    let expected: [(usize, usize); 6] = [(2, 1), (4, 2), (8, 4), (16, 4), (32, 6), (64, 7)];
    for (len, words) in expected {
        let names: Vec<String> = (0..len).map(|i| format!("biome{}", i)).collect();
        let data: Vec<i64> = vec![0; words];
        assert!(BiomesV18::new(Some(&data), &names, &biome_types).is_ok());
        let long: Vec<i64> = vec![0; words + 1];
        assert_eq!(
            BiomesV18::new(Some(&long), &names, &biome_types).err(),
            Some(ErrorKind::InvalidBiomeData)
        );
    }
    let names: Vec<String> = (0..65).map(|i| format!("biome{}", i)).collect();
    assert_eq!(
        BiomesV18::new(None, &names, &biome_types).err(),
        Some(ErrorKind::UnsupportedPaletteSize)
    );
}

#[test]
fn biomes_v18_lookup() {
    let biome_types = biome_catalog();
    let names: Vec<String> = vec![
        String::from("minecraft:plains"),
        String::from("minecraft:desert"),
        String::from("minecraft:nowhere"),
    ];
    // Two bits for each of the 64 cells, 32 cells in a word.
    let mut cells: Vec<u64> = vec![0; 64];
    cells[1] = 1; // x 4..8, y 0..4, z 0..4
    cells[4] = 2; // x 0..4, y 0..4, z 4..8
    cells[16] = 1; // x 0..4, y 4..8, z 0..4
    cells[63] = 3; // behind the palette
    let data = pack_aligned(&cells, 2);
    assert_eq!(data.len(), 2);
    let biomes = BiomesV18::new(Some(&data), &names, &biome_types).unwrap();
    let y = SectionY(0);
    assert_eq!(biomes.biome_at(y, coords(0, 0, 0)), Ok(Some(Biome { id: 1 })));
    assert_eq!(biomes.biome_at(y, coords(3, 3, 3)), Ok(Some(Biome { id: 1 })));
    assert_eq!(biomes.biome_at(y, coords(4, 0, 0)), Ok(Some(Biome { id: 2 })));
    assert_eq!(biomes.biome_at(y, coords(7, 3, 3)), Ok(Some(Biome { id: 2 })));
    assert_eq!(biomes.biome_at(y, coords(0, 0, 4)), Ok(None));
    assert_eq!(biomes.biome_at(y, coords(0, 4, 0)), Ok(Some(Biome { id: 2 })));
    assert_eq!(
        biomes.biome_at(y, coords(15, 15, 15)),
        Err(ErrorKind::PaletteIndexOutOfBounds)
    );
    let plain = BiomesV18::new(None, &names, &biome_types).unwrap();
    assert_eq!(plain.biome_at(y, coords(9, 9, 9)), Ok(Some(Biome { id: 1 })));
}

#[test]
fn biomes_v0_shapes() {
    let biome_types = biome_catalog();
    let v15 = de::BiomesV0::IntArray(vec![0; 64]);
    assert!(matches!(BiomesV0::new(Some(&v15), &biome_types), Ok(BiomesV0::IntArrayV15 { .. })));
    let columns = de::BiomesV0::IntArray(vec![0; 256]);
    assert!(matches!(BiomesV0::new(Some(&columns), &biome_types), Ok(BiomesV0::IntArrayV0 { .. })));
    let bytes = de::BiomesV0::ByteArray(vec![0; 256]);
    assert!(matches!(BiomesV0::new(Some(&bytes), &biome_types), Ok(BiomesV0::ByteArray { .. })));
    let odd = de::BiomesV0::IntArray(vec![0; 255]);
    assert_eq!(BiomesV0::new(Some(&odd), &biome_types).err(), Some(ErrorKind::InvalidBiomeData));
    let short = de::BiomesV0::ByteArray(vec![0; 64]);
    assert_eq!(BiomesV0::new(Some(&short), &biome_types).err(), Some(ErrorKind::InvalidBiomeData));
    assert_eq!(BiomesV0::new(None, &biome_types).err(), Some(ErrorKind::MissingBiomes));
}

#[test]
fn biomes_v0_reads_as_unknown() {
    let biome_types = biome_catalog();
    let columns = de::BiomesV0::IntArray(vec![7; 256]);
    let biomes = BiomesV0::new(Some(&columns), &biome_types).unwrap();
    assert_eq!(biomes.biome_at(SectionY(3), coords(1, 2, 3)), Ok(None));
}
