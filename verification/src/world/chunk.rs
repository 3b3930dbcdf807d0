//! A chunk: its sections, ordered by height.

use std::collections::BTreeMap;
use vstd::prelude::*;
use vstd::std_specs::btree::{increasing_seq, spec_btree_map_iter};
use vstd::std_specs::iter::IteratorSpec;
use crate::error::{Error, ErrorContext, ErrorKind};
use crate::resource::{Biome, BiomeTypes, BlockType, BlockTypes};
use crate::types::{SectionBlockCoords, SectionY};
use crate::world::de;
use crate::world::entry::{
    all_load,
    any,
    first_error,
    lemma_tracks_push_none,
    lemma_tracks_push_some,
    lemma_tracks_sections,
    load_v0,
    load_v1_18,
    pick,
    sections_of,
    stored_biomes,
    stored_bytes,
    stored_words,
    tracks,
    BiomesView,
    BlocksView,
    SectionEntry,
};
use crate::world::order::{
    ascending_keys,
    keys_ordered,
    lemma_ascending_len,
    lemma_iterated,
    lemma_keys_ordered,
};
use crate::world::section::{
    biomes_v0_error,
    bytes_view,
    words_view,
    Biomes,
    BiomesV0,
    BiomesV18,
    BlockLight,
    Section,
    SectionV0,
    SectionV1_13,
};

verus! {

/// The block data of a section of either kind.
#[derive(Clone, Copy)]
pub enum SectionRef<'a> {
    V1_13(&'a SectionV1_13<'a>),
    V0(&'a SectionV0<'a>),
}

impl<'a> View for SectionRef<'a> {
    type V = BlocksView;

    open spec fn view(&self) -> BlocksView {
        match self {
            SectionRef::V1_13(section) => BlocksView::V1_13 { section: section@ },
            SectionRef::V0(section) => BlocksView::V0 {
                section: section@,
                block_types: *section.block_types(),
            },
        }
    }
}

impl<'a> Section for SectionRef<'a> {
    open spec fn spec_block_at(&self, coords: SectionBlockCoords) -> Result<
        Option<BlockType>,
        ErrorKind,
    > {
        match self {
            SectionRef::V1_13(section) => section.spec_block_at(coords),
            SectionRef::V0(section) => section.spec_block_at(coords),
        }
    }

    fn block_at(&self, coords: SectionBlockCoords) -> (r: Result<Option<BlockType>, ErrorKind>) {
        match self {
            SectionRef::V1_13(section) => section.block_at(coords),
            SectionRef::V0(section) => section.block_at(coords),
        }
    }
}

/// The biome data of a section of either kind.
#[derive(Clone, Copy)]
pub enum BiomesRef<'a> {
    V18(&'a BiomesV18<'a>),
    V0(&'a BiomesV0<'a>),
}

impl<'a> View for BiomesRef<'a> {
    type V = BiomesView;

    open spec fn view(&self) -> BiomesView {
        match self {
            BiomesRef::V18(biomes) => BiomesView::V18 {
                biomes: biomes@,
                biome_types: *biomes.biome_types(),
            },
            BiomesRef::V0(biomes) => BiomesView::V0,
        }
    }
}

impl<'a> Biomes for BiomesRef<'a> {
    open spec fn spec_biome_at(&self, section: SectionY, coords: SectionBlockCoords) -> Result<
        Option<Biome>,
        ErrorKind,
    > {
        match self {
            BiomesRef::V18(biomes) => biomes.spec_biome_at(section, coords),
            BiomesRef::V0(biomes) => biomes.spec_biome_at(section, coords),
        }
    }

    fn biome_at(&self, section: SectionY, coords: SectionBlockCoords) -> (r: Result<
        Option<Biome>,
        ErrorKind,
    >) {
        match self {
            BiomesRef::V18(biomes) => biomes.biome_at(section, coords),
            BiomesRef::V0(biomes) => biomes.biome_at(section, coords),
        }
    }
}

/// A section of a chunk, handed out by [`SectionIter`].
#[derive(Clone, Copy)]
pub struct SectionIterItem<'a> {
    pub y: SectionY,
    pub section: SectionRef<'a>,
    pub biomes: BiomesRef<'a>,
    pub block_light: BlockLight<'a>,
}

impl<'a> View for SectionIterItem<'a> {
    type V = SectionEntry;

    open spec fn view(&self) -> SectionEntry {
        SectionEntry {
            y: self.y.0,
            blocks: self.section@,
            biomes: self.biomes@,
            block_light: self.block_light@,
        }
    }
}

impl<'a> SectionIterItem<'a> {
    /// What the decoders of the item give is what the view of the item says.
    pub proof fn lemma_reads(self, section: SectionY, coords: SectionBlockCoords)
        ensures
            self.section.spec_block_at(coords) == self@.block_at(coords),
            self.biomes.spec_biome_at(section, coords) == self@.biome_at(coords),
            self.block_light.spec_block_light_at(coords) == self@.block_light_at(coords),
    {
    }
}

/// The sections of a [`Chunk`], from the lowest to the highest. Sections can
/// be taken from either end.
pub struct SectionIter<'a> {
    items: Vec<SectionIterItem<'a>>,
    front: usize,
    back: usize,
}

impl<'a> SectionIter<'a> {
    #[verifier::type_invariant]
    spec fn inv(&self) -> bool {
        self.front <= self.back <= self.items@.len()
    }

    /// The sections that were not taken yet, from the lowest to the highest.
    pub closed spec fn remaining(&self) -> Seq<SectionIterItem<'a>> {
        self.items@.subrange(self.front as int, self.back as int)
    }

    /// Takes the lowest section that is left.
    pub fn next(&mut self) -> (r: Option<SectionIterItem<'a>>)
        ensures
            match r {
                Some(item) => old(self).remaining().len() > 0 && item == old(self).remaining()[0]
                    && final(self).remaining() == old(self).remaining().drop_first(),
                None => old(self).remaining().len() == 0 && final(self).remaining() == old(
                    self,
                ).remaining(),
            },
    {
        proof {
            use_type_invariant(&*self);
        }
        if self.front < self.back {
            let item = self.items[self.front];
            self.front = self.front + 1;
            assert(self.remaining() =~= old(self).remaining().drop_first());
            Some(item)
        } else {
            None
        }
    }

    /// Takes the highest section that is left.
    pub fn next_back(&mut self) -> (r: Option<SectionIterItem<'a>>)
        ensures
            match r {
                Some(item) => old(self).remaining().len() > 0 && item == old(self).remaining().last()
                    && final(self).remaining() == old(self).remaining().drop_last(),
                None => old(self).remaining().len() == 0 && final(self).remaining() == old(
                    self,
                ).remaining(),
            },
    {
        proof {
            use_type_invariant(&*self);
        }
        if self.front < self.back {
            self.back = self.back - 1;
            let item = self.items[self.back];
            assert(self.remaining() =~= old(self).remaining().drop_last());
            Some(item)
        } else {
            None
        }
    }

    /// The highest section that is left.
    pub fn last(self) -> (r: Option<SectionIterItem<'a>>)
        ensures
            match r {
                Some(item) => self.remaining().len() > 0 && item == self.remaining().last(),
                None => self.remaining().len() == 0,
            },
    {
        proof {
            use_type_invariant(&self);
        }
        if self.front < self.back {
            Some(self.items[self.back - 1])
        } else {
            None
        }
    }

    /// The number of sections that are left.
    pub fn len(&self) -> (r: usize)
        ensures
            r == self.remaining().len(),
    {
        proof {
            use_type_invariant(self);
        }
        self.back - self.front
    }

    /// The number of sections that are left, as a lower and an upper bound.
    pub fn size_hint(&self) -> (r: (usize, Option<usize>))
        ensures
            r.0 == self.remaining().len(),
            r.1 == Some(r.0),
    {
        let len: usize = self.len();
        (len, Some(len))
    }
}

/// A chunk: the decoders of its sections, by the Y index of the section.
#[allow(inconsistent_fields)]
pub enum Chunk<'a> {
    /// A chunk of format version 1.18 or later, with the biomes in the
    /// sections.
    V1_18 { section_map: BTreeMap<i32, (SectionV1_13<'a>, BiomesV18<'a>, BlockLight<'a>)> },
    /// A chunk of format version 1.13 or later: the blocks are indices into
    /// a palette of names.
    V1_13 { section_map: BTreeMap<i32, (SectionV1_13<'a>, BlockLight<'a>)>, biomes: BiomesV0<'a> },
    /// A chunk of the oldest format, with numeric block ids.
    V0 { section_map: BTreeMap<i32, (SectionV0<'a>, BlockLight<'a>)>, biomes: BiomesV0<'a> },
    /// A chunk without any block data.
    Empty,
}

/// How a section of the newest format reads.
pub open spec fn entry_v1_18(
    y: i32,
    decoders: (SectionV1_13<'_>, BiomesV18<'_>, BlockLight<'_>),
) -> SectionEntry {
    SectionEntry {
        y,
        blocks: BlocksView::V1_13 { section: decoders.0@ },
        biomes: BiomesView::V18 { biomes: decoders.1@, biome_types: *decoders.1.biome_types() },
        block_light: decoders.2@,
    }
}

/// How a section with a palette of an older format reads.
pub open spec fn entry_v1_13(y: i32, decoders: (SectionV1_13<'_>, BlockLight<'_>)) -> SectionEntry {
    SectionEntry {
        y,
        blocks: BlocksView::V1_13 { section: decoders.0@ },
        biomes: BiomesView::V0,
        block_light: decoders.1@,
    }
}

/// How a section of the oldest format reads.
pub open spec fn entry_v0(y: i32, decoders: (SectionV0<'_>, BlockLight<'_>)) -> SectionEntry {
    SectionEntry {
        y,
        blocks: BlocksView::V0 { section: decoders.0@, block_types: *decoders.0.block_types() },
        biomes: BiomesView::V0,
        block_light: decoders.1@,
    }
}

/// How the sections of a map of the newest format read.
pub open spec fn entries_v1_18(
    map: Map<i32, (SectionV1_13<'_>, BiomesV18<'_>, BlockLight<'_>)>,
) -> spec_fn(i32) -> SectionEntry {
    |y: i32| entry_v1_18(y, map[y])
}

/// How the sections of a map with palettes of an older format read.
pub open spec fn entries_v1_13(map: Map<i32, (SectionV1_13<'_>, BlockLight<'_>)>) -> spec_fn(
    i32,
) -> SectionEntry {
    |y: i32| entry_v1_13(y, map[y])
}

/// How the sections of a map of the oldest format read.
pub open spec fn entries_v0(map: Map<i32, (SectionV0<'_>, BlockLight<'_>)>) -> spec_fn(
    i32,
) -> SectionEntry {
    |y: i32| entry_v0(y, map[y])
}

/// What loading each stored section of a chunk of the newest format gives.
pub open spec fn loaded_v1_18(
    data_version: u32,
    sections: Seq<de::SectionV1_18>,
    block_types: &BlockTypes,
    biome_types: &BiomeTypes,
) -> Seq<Result<Option<SectionEntry>, Error>> {
    sections.map_values(
        |section: de::SectionV1_18| load_v1_18(data_version, &section, block_types, biome_types),
    )
}

/// What loading each stored section of a chunk of an older format gives.
pub open spec fn loaded_v0(
    data_version: u32,
    sections: Seq<de::SectionV0>,
    block_types: &BlockTypes,
) -> Seq<Result<Option<SectionEntry>, Error>> {
    sections.map_values(|section: de::SectionV0| load_v0(data_version, &section, block_types))
}

/// `r` is the chunk of the newest format that the loaded sections make:
/// the chunk holds them by their Y indices, and the first section that does
/// not load fails the chunk.
pub open spec fn assembles_v1_18(
    loaded: Seq<Result<Option<SectionEntry>, Error>>,
    r: Result<Chunk<'_>, Error>,
) -> bool {
    match r {
        Ok(chunk) => {
            &&& chunk is V1_18
            &&& all_load(loaded)
            &&& sections_of(pick(loaded, true), chunk.spec_sections())
        },
        Err(error) => first_error(loaded, error),
    }
}

/// `r` is the chunk of an older format that the loaded sections and the
/// stored biomes make. The first section that does not load fails the
/// chunk. Sections with a palette and sections with numeric ids do not go
/// together. A chunk that has sections needs biomes of a known layout; one
/// without sections is empty, whatever its biomes are.
pub open spec fn assembles_v0(
    loaded: Seq<Result<Option<SectionEntry>, Error>>,
    biomes: Option<&de::BiomesV0>,
    r: Result<Chunk<'_>, Error>,
) -> bool {
    let palette = any(pick(loaded, true));
    let numbered = any(pick(loaded, false));
    match r {
        Ok(chunk) => all_load(loaded) && match chunk {
            Chunk::Empty => !palette && !numbered,
            Chunk::V1_13 { section_map, biomes: decoder } => {
                &&& palette
                &&& !numbered
                &&& biomes is Some
                &&& decoder.holds(biomes->0)
                &&& sections_of(pick(loaded, true), chunk.spec_sections())
            },
            Chunk::V0 { section_map, biomes: decoder } => {
                &&& numbered
                &&& !palette
                &&& biomes is Some
                &&& decoder.holds(biomes->0)
                &&& sections_of(pick(loaded, false), chunk.spec_sections())
            },
            Chunk::V1_18 { section_map } => false,
        },
        Err(error) => first_error(loaded, error) || (all_load(loaded) && if palette && numbered {
            error == (Error { kind: ErrorKind::MixedSectionVersions, context: ErrorContext::Chunk })
        } else {
            &&& palette || numbered
            &&& biomes_v0_error(biomes) == Some(error.kind)
            &&& error.context == ErrorContext::Chunk
        }),
    }
}

/// The format version of a stored chunk: 0 where none is stored.
pub open spec fn stored_version(data: &de::Chunk) -> u32 {
    match data.data_version {
        Some(version) => version,
        None => 0,
    }
}

/// `r` is what loading a stored chunk gives.
pub open spec fn loads(
    data: &de::Chunk,
    block_types: &BlockTypes,
    biome_types: &BiomeTypes,
    r: Result<Chunk<'_>, Error>,
) -> bool {
    match data.chunk {
        de::ChunkVariants::V1_18 { sections } => assembles_v1_18(
            loaded_v1_18(stored_version(data), sections@, block_types, biome_types),
            r,
        ),
        de::ChunkVariants::V0 { level } => assembles_v0(
            loaded_v0(stored_version(data), level.sections@, block_types),
            stored_biomes(&level),
            r,
        ),
    }
}

/// The words of an optional array, borrowed.
fn words_of(data: &Option<Vec<i64>>) -> (r: Option<&[i64]>)
    ensures
        words_view(r) == stored_words(*data),
{
    match data {
        Some(data) => Some(data.as_slice()),
        None => None,
    }
}

/// The bytes of an optional array, borrowed.
fn bytes_of(data: &Option<Vec<i8>>) -> (r: Option<&[i8]>)
    ensures
        bytes_view(r) == stored_bytes(*data),
{
    match data {
        Some(data) => Some(data.as_slice()),
        None => None,
    }
}

impl<'a> Chunk<'a> {
    /// Creates a new [`Chunk`] from a stored chunk.
    pub fn new(data: &'a de::Chunk, block_types: &'a BlockTypes, biome_types: &'a BiomeTypes) -> (r:
        Result<Self, Error>)
        ensures
            loads(data, block_types, biome_types, r),
    {
        let data_version: u32 = match data.data_version {
            Some(version) => version,
            None => 0,
        };
        match &data.chunk {
            de::ChunkVariants::V1_18 { sections } => Self::new_v1_18(
                data_version,
                sections,
                block_types,
                biome_types,
            ),
            de::ChunkVariants::V0 { level } => Self::new_v0(
                data_version,
                level,
                block_types,
                biome_types,
            ),
        }
    }

    /// [`Chunk::new`] for chunks of format version 1.18 and later.
    fn new_v1_18(
        data_version: u32,
        sections: &'a Vec<de::SectionV1_18>,
        block_types: &'a BlockTypes,
        biome_types: &'a BiomeTypes,
    ) -> (r: Result<Self, Error>)
        ensures
            assembles_v1_18(loaded_v1_18(data_version, sections@, block_types, biome_types), r),
    {
        let ghost loaded = loaded_v1_18(data_version, sections@, block_types, biome_types);
        let ghost mut done: Seq<Option<SectionEntry>> = Seq::empty();
        let mut section_map: BTreeMap<i32, (SectionV1_13<'a>, BiomesV18<'a>, BlockLight<'a>)> =
            BTreeMap::new();
        proof {
            lemma_keys_ordered();
            assert(tracks(done, section_map@.dom(), entries_v1_18(section_map@)));
        }
        let mut n: usize = 0;
        while n < sections.len()
            invariant
                n <= sections.len(),
                loaded == loaded_v1_18(data_version, sections@, block_types, biome_types),
                keys_ordered(),
                done.len() == n,
                forall|i: int| 0 <= i < n ==> (#[trigger] loaded[i]) is Ok,
                forall|i: int| 0 <= i < n ==> #[trigger] done[i] == pick(loaded, true)[i],
                tracks(done, section_map@.dom(), entries_v1_18(section_map@)),
            decreases sections.len() - n,
        {
            let section = &sections[n];
            let y: i32 = section.y;
            let blocks = match SectionV1_13::new(
                data_version,
                words_of(&section.block_states.data),
                section.block_states.palette.as_slice(),
                block_types,
            ) {
                Ok(blocks) => blocks,
                Err(kind) => {
                    assert(loaded[n as int] == Err::<Option<SectionEntry>, Error>(
                        Error { kind, context: ErrorContext::Section(y) },
                    ));
                    return Err(Error { kind, context: ErrorContext::Section(y) });
                },
            };
            let biomes = match BiomesV18::new(
                words_of(&section.biomes.data),
                section.biomes.palette.as_slice(),
                biome_types,
            ) {
                Ok(biomes) => biomes,
                Err(kind) => {
                    assert(loaded[n as int] == Err::<Option<SectionEntry>, Error>(
                        Error { kind, context: ErrorContext::SectionBiomes(y) },
                    ));
                    return Err(Error { kind, context: ErrorContext::SectionBiomes(y) });
                },
            };
            let block_light = match BlockLight::new(bytes_of(&section.block_light)) {
                Ok(block_light) => block_light,
                Err(kind) => {
                    assert(loaded[n as int] == Err::<Option<SectionEntry>, Error>(
                        Error { kind, context: ErrorContext::SectionBlockLight(y) },
                    ));
                    return Err(Error { kind, context: ErrorContext::SectionBlockLight(y) });
                },
            };
            let ghost entry = entry_v1_18(y, (blocks, biomes, block_light));
            let ghost before = section_map@;
            assert(loaded[n as int] == Ok::<Option<SectionEntry>, Error>(Some(entry)));
            section_map.insert(y, (blocks, biomes, block_light));
            proof {
                lemma_tracks_push_some(
                    done,
                    before.dom(),
                    entries_v1_18(before),
                    entry,
                    entries_v1_18(section_map@),
                );
                assert(section_map@.dom() =~= before.dom().insert(y));
                done = done.push(Some(entry));
            }
            n = n + 1;
        }
        let chunk = Chunk::V1_18 { section_map };
        proof {
            lemma_tracks_sections(done, section_map@.dom(), entries_v1_18(section_map@));
            assert(done =~= pick(loaded, true));
        }
        Ok(chunk)
    }

    /// [`Chunk::new`] for all chunks from before format version 1.18.
    fn new_v0(
        data_version: u32,
        level: &'a de::LevelV0,
        block_types: &'a BlockTypes,
        biome_types: &'a BiomeTypes,
    ) -> (r: Result<Self, Error>)
        ensures
            assembles_v0(
                loaded_v0(data_version, level.sections@, block_types),
                stored_biomes(level),
                r,
            ),
    {
        let ghost loaded = loaded_v0(data_version, level.sections@, block_types);
        let ghost mut palette: Seq<Option<SectionEntry>> = Seq::empty();
        let ghost mut numbered: Seq<Option<SectionEntry>> = Seq::empty();
        let mut section_map_v1_13: BTreeMap<i32, (SectionV1_13<'a>, BlockLight<'a>)> =
            BTreeMap::new();
        let mut section_map_v0: BTreeMap<i32, (SectionV0<'a>, BlockLight<'a>)> = BTreeMap::new();
        proof {
            lemma_keys_ordered();
            assert(tracks(palette, section_map_v1_13@.dom(), entries_v1_13(section_map_v1_13@)));
            assert(tracks(numbered, section_map_v0@.dom(), entries_v0(section_map_v0@)));
        }
        let mut n: usize = 0;
        while n < level.sections.len()
            invariant
                n <= level.sections.len(),
                loaded == loaded_v0(data_version, level.sections@, block_types),
                keys_ordered(),
                palette.len() == n,
                numbered.len() == n,
                forall|i: int| 0 <= i < n ==> (#[trigger] loaded[i]) is Ok,
                forall|i: int| 0 <= i < n ==> #[trigger] palette[i] == pick(loaded, true)[i],
                forall|i: int| 0 <= i < n ==> #[trigger] numbered[i] == pick(loaded, false)[i],
                tracks(palette, section_map_v1_13@.dom(), entries_v1_13(section_map_v1_13@)),
                tracks(numbered, section_map_v0@.dom(), entries_v0(section_map_v0@)),
            decreases level.sections.len() - n,
        {
            let section = &level.sections[n];
            let y: i32 = section.y as i32;
            let block_light = match BlockLight::new(bytes_of(&section.block_light)) {
                Ok(block_light) => block_light,
                Err(kind) => {
                    assert(loaded[n as int] == Err::<Option<SectionEntry>, Error>(
                        Error { kind, context: ErrorContext::SectionBlockLight(y) },
                    ));
                    return Err(Error { kind, context: ErrorContext::SectionBlockLight(y) });
                },
            };
            match &section.section {
                de::SectionV0Variants::V1_13 { block_states, palette: names } => {
                    let blocks = match SectionV1_13::new(
                        data_version,
                        Some(block_states.as_slice()),
                        names.as_slice(),
                        block_types,
                    ) {
                        Ok(blocks) => blocks,
                        Err(kind) => {
                            assert(loaded[n as int] == Err::<Option<SectionEntry>, Error>(
                                Error { kind, context: ErrorContext::Section(y) },
                            ));
                            return Err(Error { kind, context: ErrorContext::Section(y) });
                        },
                    };
                    let ghost entry = entry_v1_13(y, (blocks, block_light));
                    let ghost before = section_map_v1_13@;
                    assert(loaded[n as int] == Ok::<Option<SectionEntry>, Error>(Some(entry)));
                    section_map_v1_13.insert(y, (blocks, block_light));
                    proof {
                        lemma_tracks_push_some(
                            palette,
                            before.dom(),
                            entries_v1_13(before),
                            entry,
                            entries_v1_13(section_map_v1_13@),
                        );
                        lemma_tracks_push_none(
                            numbered,
                            section_map_v0@.dom(),
                            entries_v0(section_map_v0@),
                        );
                        assert(section_map_v1_13@.dom() =~= before.dom().insert(y));
                        palette = palette.push(Some(entry));
                        numbered = numbered.push(None);
                    }
                },
                de::SectionV0Variants::V0 { blocks, data } => {
                    let blocks = match SectionV0::new(
                        blocks.as_slice(),
                        data.as_slice(),
                        block_types,
                    ) {
                        Ok(blocks) => blocks,
                        Err(kind) => {
                            assert(loaded[n as int] == Err::<Option<SectionEntry>, Error>(
                                Error { kind, context: ErrorContext::Section(y) },
                            ));
                            return Err(Error { kind, context: ErrorContext::Section(y) });
                        },
                    };
                    let ghost entry = entry_v0(y, (blocks, block_light));
                    let ghost before = section_map_v0@;
                    assert(loaded[n as int] == Ok::<Option<SectionEntry>, Error>(Some(entry)));
                    section_map_v0.insert(y, (blocks, block_light));
                    proof {
                        lemma_tracks_push_some(
                            numbered,
                            before.dom(),
                            entries_v0(before),
                            entry,
                            entries_v0(section_map_v0@),
                        );
                        lemma_tracks_push_none(
                            palette,
                            section_map_v1_13@.dom(),
                            entries_v1_13(section_map_v1_13@),
                        );
                        assert(section_map_v0@.dom() =~= before.dom().insert(y));
                        numbered = numbered.push(Some(entry));
                        palette = palette.push(None);
                    }
                },
                de::SectionV0Variants::Empty {  } => {
                    assert(loaded[n as int] == Ok::<Option<SectionEntry>, Error>(None));
                    proof {
                        lemma_tracks_push_none(
                            palette,
                            section_map_v1_13@.dom(),
                            entries_v1_13(section_map_v1_13@),
                        );
                        lemma_tracks_push_none(
                            numbered,
                            section_map_v0@.dom(),
                            entries_v0(section_map_v0@),
                        );
                        palette = palette.push(None);
                        numbered = numbered.push(None);
                    }
                },
            }
            n = n + 1;
        }
        proof {
            lemma_tracks_sections(
                palette,
                section_map_v1_13@.dom(),
                entries_v1_13(section_map_v1_13@),
            );
            lemma_tracks_sections(numbered, section_map_v0@.dom(), entries_v0(section_map_v0@));
            assert(palette =~= pick(loaded, true));
            assert(numbered =~= pick(loaded, false));
            lemma_ascending_len(section_map_v1_13@.dom());
            lemma_ascending_len(section_map_v0@.dom());
        }
        let no_palette = section_map_v1_13.is_empty();
        let no_numbered = section_map_v0.is_empty();
        if no_palette && no_numbered {
            Ok(Chunk::Empty)
        } else if !no_palette && !no_numbered {
            Err(ErrorKind::MixedSectionVersions.at_chunk())
        } else {
            let biomes = match BiomesV0::new(level.biomes.as_ref(), biome_types) {
                Ok(biomes) => biomes,
                Err(kind) => {
                    return Err(kind.at_chunk());
                },
            };
            if no_numbered {
                Ok(Chunk::V1_13 { section_map: section_map_v1_13, biomes })
            } else {
                Ok(Chunk::V0 { section_map: section_map_v0, biomes })
            }
        }
    }

    /// The sections of the chunk, from the lowest to the highest.
    pub open spec fn spec_sections(&self) -> Seq<SectionEntry> {
        match self {
            Chunk::V1_18 { section_map } => ascending_keys(section_map@.dom()).map_values(
                entries_v1_18(section_map@),
            ),
            Chunk::V1_13 { section_map, biomes } => ascending_keys(section_map@.dom()).map_values(
                entries_v1_13(section_map@),
            ),
            Chunk::V0 { section_map, biomes } => ascending_keys(section_map@.dom()).map_values(
                entries_v0(section_map@),
            ),
            Chunk::Empty => Seq::empty(),
        }
    }

    /// Tells whether the chunk has no sections.
    pub fn is_empty(&self) -> (r: bool)
        ensures
            r == (self.spec_sections().len() == 0),
    {
        broadcast use vstd::std_specs::btree::group_btree_axioms;

        proof {
            match self {
                Chunk::V1_18 { section_map } => lemma_ascending_len(section_map@.dom()),
                Chunk::V1_13 { section_map, biomes } => lemma_ascending_len(section_map@.dom()),
                Chunk::V0 { section_map, biomes } => lemma_ascending_len(section_map@.dom()),
                Chunk::Empty => {},
            }
        }
        match self {
            Chunk::V1_18 { section_map } => section_map.is_empty(),
            Chunk::V1_13 { section_map, biomes } => section_map.is_empty(),
            Chunk::V0 { section_map, biomes } => section_map.is_empty(),
            Chunk::Empty => true,
        }
    }

    /// Returns the sections of the chunk with their Y indices, in ascending
    /// order.
    pub fn sections<'b>(&'b self) -> (r: SectionIter<'b>)
        ensures
            r.remaining().len() == self.spec_sections().len(),
            forall|i: int|
                0 <= i < r.remaining().len() ==> (#[trigger] r.remaining()[i])@
                    == self.spec_sections()[i],
    {
        broadcast use vstd::std_specs::btree::group_btree_axioms;

        let mut items: Vec<SectionIterItem<'b>> = Vec::new();
        let ghost mut keys: Seq<i32> = Seq::empty();
        match self {
            Chunk::V1_18 { section_map } => {
                proof {
                    lemma_keys_ordered();
                }
                let ghost full = spec_btree_map_iter(section_map).remaining();
                for entry in it: section_map.iter()
                    invariant
                        it.seq() == full,
                        items@.len() == it.index(),
                        keys.len() == it.index(),
                        increasing_seq(full.map_values(|kv: (&i32, &(SectionV1_13<'a>, BiomesV18<'a>, BlockLight<'a>))| *kv.0)),
                        forall|i: int| 0 <= i < keys.len() ==> keys[i] == *full[i].0,
                        forall|i: int|
                            0 <= i < items@.len() ==> (#[trigger] items@[i])@ == entry_v1_18(
                                keys[i],
                                section_map@[keys[i]],
                            ),
                {
                    let (y, decoders) = entry;
                    items.push(
                        SectionIterItem {
                            y: SectionY(*y),
                            section: SectionRef::V1_13(&decoders.0),
                            biomes: BiomesRef::V18(&decoders.1),
                            block_light: decoders.2,
                        },
                    );
                    proof {
                        keys = keys.push(*y);
                    }
                }
                proof {
                    assert(keys.len() == full.len());
                    lemma_iterated(section_map@, full, keys);
                }
            },
            Chunk::V1_13 { section_map, biomes } => {
                proof {
                    lemma_keys_ordered();
                }
                let ghost full = spec_btree_map_iter(section_map).remaining();
                for entry in it: section_map.iter()
                    invariant
                        it.seq() == full,
                        items@.len() == it.index(),
                        keys.len() == it.index(),
                        increasing_seq(full.map_values(|kv: (&i32, &(SectionV1_13<'a>, BlockLight<'a>))| *kv.0)),
                        forall|i: int| 0 <= i < keys.len() ==> keys[i] == *full[i].0,
                        forall|i: int|
                            0 <= i < items@.len() ==> (#[trigger] items@[i])@ == entry_v1_13(
                                keys[i],
                                section_map@[keys[i]],
                            ),
                {
                    let (y, decoders) = entry;
                    items.push(
                        SectionIterItem {
                            y: SectionY(*y),
                            section: SectionRef::V1_13(&decoders.0),
                            biomes: BiomesRef::V0(biomes),
                            block_light: decoders.1,
                        },
                    );
                    proof {
                        keys = keys.push(*y);
                    }
                }
                proof {
                    assert(keys.len() == full.len());
                    lemma_iterated(section_map@, full, keys);
                }
            },
            Chunk::V0 { section_map, biomes } => {
                proof {
                    lemma_keys_ordered();
                }
                let ghost full = spec_btree_map_iter(section_map).remaining();
                for entry in it: section_map.iter()
                    invariant
                        it.seq() == full,
                        items@.len() == it.index(),
                        keys.len() == it.index(),
                        increasing_seq(full.map_values(|kv: (&i32, &(SectionV0<'a>, BlockLight<'a>))| *kv.0)),
                        forall|i: int| 0 <= i < keys.len() ==> keys[i] == *full[i].0,
                        forall|i: int|
                            0 <= i < items@.len() ==> (#[trigger] items@[i])@ == entry_v0(
                                keys[i],
                                section_map@[keys[i]],
                            ),
                {
                    let (y, decoders) = entry;
                    items.push(
                        SectionIterItem {
                            y: SectionY(*y),
                            section: SectionRef::V0(&decoders.0),
                            biomes: BiomesRef::V0(biomes),
                            block_light: decoders.1,
                        },
                    );
                    proof {
                        keys = keys.push(*y);
                    }
                }
                proof {
                    assert(keys.len() == full.len());
                    lemma_iterated(section_map@, full, keys);
                }
            },
            Chunk::Empty => {},
        }
        let back: usize = items.len();
        let r = SectionIter { items, front: 0, back };
        assert(r.remaining() =~= r.items@);
        r
    }
}

} // verus!
