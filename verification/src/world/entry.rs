//! How the stored sections of a chunk read, and which of them make up the
//! chunk.

use vstd::prelude::*;
use crate::error::{Error, ErrorContext, ErrorKind};
use crate::resource::{Biome, BiomeTypes, BlockType, BlockTypes};
use crate::types::SectionBlockCoords;
use crate::world::de;
use crate::world::order::{ascending_keys, is_ascending_of, lemma_ascending_keys, lemma_ascending_unique};
use crate::world::section::{
    biome_names,
    light_at,
    load_biomes_v18,
    load_block_light,
    load_section_v0,
    load_section_v1_13,
    palette_names,
    BiomesV18View,
    SectionV0View,
    SectionV1_13View,
};

verus! {

/// The block data of a section, as the scan of a chunk sees it.
#[allow(inconsistent_fields)]
pub enum BlocksView {
    V1_13 { section: SectionV1_13View },
    V0 { section: SectionV0View, block_types: BlockTypes },
}

/// The biome data of a section, as the scan of a chunk sees it.
pub enum BiomesView {
    V18 { biomes: BiomesV18View, biome_types: BiomeTypes },
    V0,
}

/// A section of a chunk, as the scan of the chunk sees it.
pub struct SectionEntry {
    /// The Y index of the section.
    pub y: i32,
    pub blocks: BlocksView,
    pub biomes: BiomesView,
    pub block_light: Option<Seq<i8>>,
}

impl SectionEntry {
    /// The block type at a position of the section.
    pub open spec fn block_at(self, coords: SectionBlockCoords) -> Result<
        Option<BlockType>,
        ErrorKind,
    > {
        match self.blocks {
            BlocksView::V1_13 { section } => section.block_at(coords.spec_offset() as nat),
            BlocksView::V0 { section, block_types } => Ok(
                section.block_at(&block_types, coords.spec_offset() as nat),
            ),
        }
    }

    /// The biome at a position of the section.
    pub open spec fn biome_at(self, coords: SectionBlockCoords) -> Result<Option<Biome>, ErrorKind> {
        match self.biomes {
            BiomesView::V18 { biomes, biome_types } => biomes.biome_at(&biome_types, coords),
            BiomesView::V0 => Ok(None),
        }
    }

    /// The block light at a position of the section.
    pub open spec fn block_light_at(self, coords: SectionBlockCoords) -> u8 {
        light_at(self.block_light, coords.spec_offset() as nat) as u8
    }
}

/// The words of an optional array.
pub open spec fn stored_words(data: Option<Vec<i64>>) -> Option<Seq<i64>> {
    match data {
        Some(data) => Some(data@),
        None => None,
    }
}

/// The bytes of an optional array.
pub open spec fn stored_bytes(data: Option<Vec<i8>>) -> Option<Seq<i8>> {
    match data {
        Some(data) => Some(data@),
        None => None,
    }
}

/// The biomes of a level, if it holds any.
pub open spec fn stored_biomes(level: &de::LevelV0) -> Option<&de::BiomesV0> {
    match level.biomes {
        Some(biomes) => Some(&biomes),
        None => None,
    }
}

/// What loading a stored section of the newest format gives: how the
/// section reads, or the first error among those of its block data, its
/// biome data and its light data.
pub open spec fn load_v1_18(
    data_version: u32,
    section: &de::SectionV1_18,
    block_types: &BlockTypes,
    biome_types: &BiomeTypes,
) -> Result<Option<SectionEntry>, Error> {
    match load_section_v1_13(
        data_version,
        stored_words(section.block_states.data),
        palette_names(section.block_states.palette@),
        block_types,
    ) {
        Err(kind) => Err(Error { kind, context: ErrorContext::Section(section.y) }),
        Ok(blocks) => match load_biomes_v18(
            stored_words(section.biomes.data),
            biome_names(section.biomes.palette@),
        ) {
            Err(kind) => Err(Error { kind, context: ErrorContext::SectionBiomes(section.y) }),
            Ok(biomes) => match load_block_light(stored_bytes(section.block_light)) {
                Err(kind) => Err(
                    Error { kind, context: ErrorContext::SectionBlockLight(section.y) },
                ),
                Ok(block_light) => Ok(
                    Some(
                        SectionEntry {
                            y: section.y,
                            blocks: BlocksView::V1_13 { section: blocks },
                            biomes: BiomesView::V18 { biomes, biome_types: *biome_types },
                            block_light,
                        },
                    ),
                ),
            },
        },
    }
}

/// What loading a stored section of an older format gives: how the section
/// reads, nothing for a section without block data, or the first error among
/// those of its light data and its block data.
pub open spec fn load_v0(data_version: u32, section: &de::SectionV0, block_types: &BlockTypes) -> Result<
    Option<SectionEntry>,
    Error,
> {
    let y = section.y as i32;
    match load_block_light(stored_bytes(section.block_light)) {
        Err(kind) => Err(Error { kind, context: ErrorContext::SectionBlockLight(y) }),
        Ok(block_light) => match section.section {
            de::SectionV0Variants::V1_13 { block_states, palette } => match load_section_v1_13(
                data_version,
                Some(block_states@),
                palette_names(palette@),
                block_types,
            ) {
                Err(kind) => Err(Error { kind, context: ErrorContext::Section(y) }),
                Ok(blocks) => Ok(
                    Some(
                        SectionEntry {
                            y,
                            blocks: BlocksView::V1_13 { section: blocks },
                            biomes: BiomesView::V0,
                            block_light,
                        },
                    ),
                ),
            },
            de::SectionV0Variants::V0 { blocks, data } => match load_section_v0(blocks@, data@) {
                Err(kind) => Err(Error { kind, context: ErrorContext::Section(y) }),
                Ok(section) => Ok(
                    Some(
                        SectionEntry {
                            y,
                            blocks: BlocksView::V0 { section, block_types: *block_types },
                            biomes: BiomesView::V0,
                            block_light,
                        },
                    ),
                ),
            },
            de::SectionV0Variants::Empty {  } => Ok(None),
        },
    }
}

/// Every stored section loads.
pub open spec fn all_load(loaded: Seq<Result<Option<SectionEntry>, Error>>) -> bool {
    forall|i: int| 0 <= i < loaded.len() ==> (#[trigger] loaded[i]) is Ok
}

/// `error` is the error of the first stored section that does not load.
pub open spec fn first_error(loaded: Seq<Result<Option<SectionEntry>, Error>>, error: Error) -> bool {
    exists|i: int|
        0 <= i < loaded.len() && #[trigger] loaded[i] == Err::<Option<SectionEntry>, Error>(error)
            && forall|j: int| 0 <= j < i ==> (#[trigger] loaded[j]) is Ok
}

/// The loaded sections whose block data is, or is not, indexed by a palette.
pub open spec fn pick(loaded: Seq<Result<Option<SectionEntry>, Error>>, palette: bool) -> Seq<
    Option<SectionEntry>,
> {
    loaded.map_values(
        |r: Result<Option<SectionEntry>, Error>|
            match r {
                Ok(Some(entry)) => if (entry.blocks is V1_13) == palette {
                    Some(entry)
                } else {
                    None
                },
                _ => None,
            },
    )
}

/// There is an entry.
pub open spec fn any(entries: Seq<Option<SectionEntry>>) -> bool {
    exists|i: int| 0 <= i < entries.len() && (#[trigger] entries[i]) is Some
}

/// The entry at `i` is the last one with its Y index.
pub open spec fn is_last_with_y(entries: Seq<Option<SectionEntry>>, i: int) -> bool {
    &&& 0 <= i < entries.len()
    &&& entries[i] is Some
    &&& forall|j: int|
        i < j < entries.len() && (#[trigger] entries[j]) is Some ==> entries[j]->0.y
            != entries[i]->0.y
}

/// `sections` are the given entries in the ascending order of their Y
/// indices; of several entries with the same Y index only the last counts.
#[verifier::opaque]
pub open spec fn sections_of(entries: Seq<Option<SectionEntry>>, sections: Seq<SectionEntry>) -> bool {
    &&& forall|a: int, b: int| 0 <= a < b < sections.len() ==> sections[a].y < sections[b].y
    &&& forall|k: int|
        0 <= k < sections.len() ==> exists|i: int|
            is_last_with_y(entries, i) && entries[i] == Some(#[trigger] sections[k])
    &&& forall|i: int|
        is_last_with_y(entries, i) ==> exists|k: int|
            0 <= k < sections.len() && Some(sections[k]) == #[trigger] entries[i]
}

/// A map from Y indices holds what a list of entries says: `entry_of` tells
/// how the section that the map holds for a Y index reads.
pub open spec fn tracks(
    entries: Seq<Option<SectionEntry>>,
    keys: Set<i32>,
    entry_of: spec_fn(i32) -> SectionEntry,
) -> bool {
    &&& forall|y: i32| #[trigger]
        keys.contains(y) ==> entry_of(y).y == y && exists|i: int|
            is_last_with_y(entries, i) && entries[i] == Some(entry_of(y))
    &&& forall|i: int|
        0 <= i < entries.len() && (#[trigger] entries[i]) is Some ==> keys.contains(
            entries[i]->0.y,
        )
}

/// A map that takes in the section of a further entry holds what the longer
/// list says.
pub(crate) proof fn lemma_tracks_push_some(
    entries: Seq<Option<SectionEntry>>,
    keys: Set<i32>,
    entry_of: spec_fn(i32) -> SectionEntry,
    entry: SectionEntry,
    next_entry_of: spec_fn(i32) -> SectionEntry,
)
    requires
        tracks(entries, keys, entry_of),
        next_entry_of(entry.y) == entry,
        forall|y: i32| keys.contains(y) && y != entry.y ==> next_entry_of(y) == entry_of(y),
    ensures
        tracks(entries.push(Some(entry)), keys.insert(entry.y), next_entry_of),
{
    let next = entries.push(Some(entry));
    assert forall|y: i32| #[trigger] keys.insert(entry.y).contains(y) implies next_entry_of(y).y
        == y && exists|i: int| is_last_with_y(next, i) && next[i] == Some(next_entry_of(y)) by {
        if y == entry.y {
            assert(is_last_with_y(next, entries.len() as int));
        } else {
            assert(keys.contains(y));
            let i = choose|i: int| is_last_with_y(entries, i) && entries[i] == Some(entry_of(y));
            assert(next[i] == entries[i]);
            assert forall|j: int| i < j < next.len() && (#[trigger] next[j]) is Some implies next[j]->0.y
                != next[i]->0.y by {
                if j < entries.len() {
                    assert(next[j] == entries[j]);
                }
            }
            assert(is_last_with_y(next, i));
        }
    }
    assert forall|i: int| 0 <= i < next.len() && (#[trigger] next[i]) is Some implies keys.insert(
        entry.y,
    ).contains(next[i]->0.y) by {
        if i < entries.len() {
            assert(next[i] == entries[i]);
        }
    }
}

/// A further entry without a section changes nothing of what a map holds.
pub(crate) proof fn lemma_tracks_push_none(
    entries: Seq<Option<SectionEntry>>,
    keys: Set<i32>,
    entry_of: spec_fn(i32) -> SectionEntry,
)
    requires
        tracks(entries, keys, entry_of),
    ensures
        tracks(entries.push(None), keys, entry_of),
{
    let next = entries.push(None);
    assert forall|y: i32| #[trigger] keys.contains(y) implies entry_of(y).y == y && exists|i: int|
        is_last_with_y(next, i) && next[i] == Some(entry_of(y)) by {
        let i = choose|i: int| is_last_with_y(entries, i) && entries[i] == Some(entry_of(y));
        assert(next[i] == entries[i]);
        assert forall|j: int| i < j < next.len() && (#[trigger] next[j]) is Some implies next[j]->0.y
            != next[i]->0.y by {
            if j < entries.len() {
                assert(next[j] == entries[j]);
            }
        }
        assert(is_last_with_y(next, i));
    }
    assert forall|i: int| 0 <= i < next.len() && (#[trigger] next[i]) is Some implies keys.contains(
        next[i]->0.y,
    ) by {
        if i < entries.len() {
            assert(next[i] == entries[i]);
        }
    }
}

/// Two entries that are both the last with the same Y index are one entry.
proof fn lemma_last_unique(entries: Seq<Option<SectionEntry>>, i: int, j: int)
    requires
        is_last_with_y(entries, i),
        is_last_with_y(entries, j),
        entries[i]->0.y == entries[j]->0.y,
    ensures
        i == j,
{
    if i < j {
        assert(entries[j] is Some);
    } else if j < i {
        assert(entries[i] is Some);
    }
}

/// The sections of a map, taken by ascending keys, ascend in their Y
/// indices.
proof fn lemma_tracks_ordered(keys: Set<i32>, entry_of: spec_fn(i32) -> SectionEntry)
    requires
        forall|y: i32| #[trigger] keys.contains(y) ==> entry_of(y).y == y,
    ensures
        ({
            let sections = ascending_keys(keys).map_values(entry_of);
            forall|a: int, b: int| 0 <= a < b < sections.len() ==> sections[a].y < sections[b].y
        }),
{
    let ordered = ascending_keys(keys);
    let sections = ordered.map_values(entry_of);
    lemma_ascending_keys(keys);
    assert forall|a: int, b: int| 0 <= a < b < sections.len() implies sections[a].y
        < sections[b].y by {
        assert(keys.contains(ordered[a]));
        assert(keys.contains(ordered[b]));
        assert(sections[a] == entry_of(ordered[a]));
        assert(sections[b] == entry_of(ordered[b]));
    }
}

/// Every section of a map comes from the last entry with its Y index.
proof fn lemma_tracks_found(
    entries: Seq<Option<SectionEntry>>,
    keys: Set<i32>,
    entry_of: spec_fn(i32) -> SectionEntry,
    k: int,
)
    requires
        tracks(entries, keys, entry_of),
        0 <= k < ascending_keys(keys).len(),
    ensures
        exists|i: int|
            is_last_with_y(entries, i) && entries[i] == Some(
                ascending_keys(keys).map_values(entry_of)[k],
            ),
{
    let ordered = ascending_keys(keys);
    lemma_ascending_keys(keys);
    assert(keys.contains(ordered[k]));
    let i = choose|i: int| is_last_with_y(entries, i) && entries[i] == Some(entry_of(ordered[k]));
    assert(ordered.map_values(entry_of)[k] == entry_of(ordered[k]));
    assert(is_last_with_y(entries, i) && entries[i] == Some(ordered.map_values(entry_of)[k]));
}

/// The last entry with a Y index is a section of the map.
proof fn lemma_tracks_kept(
    entries: Seq<Option<SectionEntry>>,
    keys: Set<i32>,
    entry_of: spec_fn(i32) -> SectionEntry,
    i: int,
)
    requires
        tracks(entries, keys, entry_of),
        is_last_with_y(entries, i),
    ensures
        exists|k: int|
            0 <= k < ascending_keys(keys).len() && Some(
                ascending_keys(keys).map_values(entry_of)[k],
            ) == entries[i],
{
    let ordered = ascending_keys(keys);
    lemma_ascending_keys(keys);
    let y = entries[i]->0.y;
    assert(keys.contains(y));
    let other = choose|other: int|
        is_last_with_y(entries, other) && entries[other] == Some(entry_of(y));
    lemma_last_unique(entries, i, other);
    let k = choose|k: int| 0 <= k < ordered.len() && ordered[k] == y;
    assert(ordered.map_values(entry_of)[k] == entry_of(y));
    assert(0 <= k < ordered.len() && Some(ordered.map_values(entry_of)[k]) == entries[i]);
}

/// A map has sections where the list has entries, and nowhere else.
proof fn lemma_tracks_any(
    entries: Seq<Option<SectionEntry>>,
    keys: Set<i32>,
    entry_of: spec_fn(i32) -> SectionEntry,
)
    requires
        tracks(entries, keys, entry_of),
    ensures
        any(entries) == (ascending_keys(keys).len() > 0),
{
    let ordered = ascending_keys(keys);
    lemma_ascending_keys(keys);
    if any(entries) {
        let i = choose|i: int| 0 <= i < entries.len() && (#[trigger] entries[i]) is Some;
        assert(keys.contains(entries[i]->0.y));
        let k = choose|k: int| 0 <= k < ordered.len() && ordered[k] == entries[i]->0.y;
    }
    if ordered.len() > 0 {
        assert(keys.contains(ordered[0]));
        let i = choose|i: int|
            is_last_with_y(entries, i) && entries[i] == Some(entry_of(ordered[0]));
        assert(entries[i] is Some);
    }
}

/// The sections of a map that holds what a list of entries says are the
/// sections that the list makes.
pub(crate) proof fn lemma_tracks_sections(
    entries: Seq<Option<SectionEntry>>,
    keys: Set<i32>,
    entry_of: spec_fn(i32) -> SectionEntry,
)
    requires
        tracks(entries, keys, entry_of),
    ensures
        sections_of(entries, ascending_keys(keys).map_values(entry_of)),
        any(entries) == (ascending_keys(keys).len() > 0),
{
    reveal(sections_of);
    let sections = ascending_keys(keys).map_values(entry_of);
    lemma_tracks_ordered(keys, entry_of);
    lemma_tracks_any(entries, keys, entry_of);
    assert forall|k: int| 0 <= k < sections.len() implies exists|i: int|
        is_last_with_y(entries, i) && entries[i] == Some(#[trigger] sections[k]) by {
        lemma_tracks_found(entries, keys, entry_of, k);
    }
    assert forall|i: int| is_last_with_y(entries, i) implies exists|k: int|
        0 <= k < sections.len() && Some(sections[k]) == #[trigger] entries[i] by {
        lemma_tracks_kept(entries, keys, entry_of, i);
    }
}

/// A list of entries makes one sequence of sections only.
pub proof fn lemma_sections_unique(
    entries: Seq<Option<SectionEntry>>,
    a: Seq<SectionEntry>,
    b: Seq<SectionEntry>,
)
    requires
        sections_of(entries, a),
        sections_of(entries, b),
    ensures
        a == b,
{
    let keys = Set::new(
        |y: i32| exists|i: int| is_last_with_y(entries, i) && entries[i] is Some && entries[i]->0.y == y,
    );
    let heights_a = a.map_values(|entry: SectionEntry| entry.y);
    let heights_b = b.map_values(|entry: SectionEntry| entry.y);
    lemma_heights(entries, a, keys);
    lemma_heights(entries, b, keys);
    lemma_ascending_unique(heights_a, heights_b, keys);
    assert(a.len() == heights_a.len());
    assert(b.len() == heights_b.len());
    assert forall|k: int| 0 <= k < a.len() implies a[k] == b[k] by {
        assert(heights_a[k] == a[k].y);
        assert(heights_b[k] == b[k].y);
        lemma_same_section(entries, a, b, k);
    }
    assert(a =~= b);
}

/// Two sections that a list of entries makes for one Y index are the same.
proof fn lemma_same_section(
    entries: Seq<Option<SectionEntry>>,
    a: Seq<SectionEntry>,
    b: Seq<SectionEntry>,
    k: int,
)
    requires
        sections_of(entries, a),
        sections_of(entries, b),
        0 <= k < a.len(),
        k < b.len(),
        a[k].y == b[k].y,
    ensures
        a[k] == b[k],
{
    let i = lemma_section_source(entries, a, k);
    let j = lemma_section_source(entries, b, k);
    lemma_last_unique(entries, i, j);
}

/// The entry that a section of a list of entries comes from.
proof fn lemma_section_source(
    entries: Seq<Option<SectionEntry>>,
    sections: Seq<SectionEntry>,
    k: int,
) -> (i: int)
    requires
        sections_of(entries, sections),
        0 <= k < sections.len(),
    ensures
        is_last_with_y(entries, i),
        entries[i] == Some(sections[k]),
{
    reveal(sections_of);
    choose|i: int| is_last_with_y(entries, i) && entries[i] == Some(sections[k])
}

/// The Y indices of the sections that a list of entries makes are the
/// ascending order of the Y indices of the entries.
proof fn lemma_heights(entries: Seq<Option<SectionEntry>>, sections: Seq<SectionEntry>, keys: Set<i32>)
    requires
        sections_of(entries, sections),
        keys == Set::new(
            |y: i32|
                exists|i: int|
                    is_last_with_y(entries, i) && entries[i] is Some && entries[i]->0.y == y,
        ),
    ensures
        is_ascending_of(sections.map_values(|entry: SectionEntry| entry.y), keys),
{
    reveal(sections_of);
    let heights = sections.map_values(|entry: SectionEntry| entry.y);
    assert forall|i: int| 0 <= i < heights.len() implies keys.contains(#[trigger] heights[i]) by {
        let at = choose|at: int| is_last_with_y(entries, at) && entries[at] == Some(sections[i]);
        assert(entries[at]->0.y == heights[i]);
    }
    assert forall|key: i32| keys.contains(key) implies exists|i: int|
        0 <= i < heights.len() && heights[i] == key by {
        let at = choose|at: int|
            is_last_with_y(entries, at) && entries[at] is Some && entries[at]->0.y == key;
        let k = choose|k: int| 0 <= k < sections.len() && Some(sections[k]) == entries[at];
        assert(heights[k] == key);
    }
}

} // verus!
