//! Processing of the chunks of a region.

use vstd::prelude::*;
use crate::error::{Error, RegionError};
use crate::resource::{BiomeTypes, BlockTypes};
use crate::types::{ChunkArray, ChunkCoords};
use crate::world::chunk::{loads, Chunk};
use crate::world::de;
use crate::world::layer::{top_layer, top_layer_of, LayerData};

verus! {

/// The top layers of the chunks of a region; nothing for a chunk slot that
/// holds no chunk or a chunk without sections.
pub type ProcessedRegion = ChunkArray<Option<LayerData>>;

/// `r` is what processing a stored chunk gives: the error of loading it,
/// or the top layer of the loaded chunk.
#[verifier::opaque]
pub open spec fn processes(
    data: &de::Chunk,
    block_types: &BlockTypes,
    biome_types: &BiomeTypes,
    r: Result<Option<LayerData>, Error>,
) -> bool {
    exists|loaded: Result<Chunk<'_>, Error>| #[trigger]
        loads(data, block_types, biome_types, loaded) && match loaded {
            Err(error) => r == Err::<Option<LayerData>, Error>(error),
            Ok(chunk) => top_layer_of(chunk.spec_sections(), r),
        }
}

/// Processes a single chunk: loads it and takes its top layer.
pub fn process_chunk(data: &de::Chunk, block_types: &BlockTypes, biome_types: &BiomeTypes) -> (r:
    Result<Option<LayerData>, Error>)
    ensures
        processes(data, block_types, biome_types, r),
{
    reveal(processes);
    let loaded = Chunk::new(data, block_types, biome_types);
    match loaded {
        Err(error) => {
            assert(loads(data, block_types, biome_types, loaded));
            Err(error)
        },
        Ok(chunk) => {
            let r = top_layer(&chunk);
            assert(loads(data, block_types, biome_types, Ok(chunk)));
            r
        },
    }
}

/// The chunk at `i` is the last one among the first `n` of the list for its
/// slot.
pub open spec fn is_last_at(chunks: Seq<(ChunkCoords, de::Chunk)>, n: int, i: int) -> bool {
    &&& 0 <= i < n
    &&& forall|j: int|
        i < j < n ==> (#[trigger] chunks[j]).0.spec_offset() != chunks[i].0.spec_offset()
}

/// None of the first `n` chunks of the list is for the slot.
pub open spec fn is_free(chunks: Seq<(ChunkCoords, de::Chunk)>, n: int, slot: int) -> bool {
    forall|i: int| 0 <= i < n ==> (#[trigger] chunks[i]).0.spec_offset() != slot
}

/// The chunk can be processed.
pub open spec fn succeeds(data: &de::Chunk, block_types: &BlockTypes, biome_types: &BiomeTypes) -> bool {
    exists|layer: Option<LayerData>|
        processes(data, block_types, biome_types, Ok::<Option<LayerData>, Error>(layer))
}

/// `cells` are the slots of a region after the first `n` chunks of the list
/// have been processed without a failure: each slot holds the top layer of
/// the last chunk for this slot, and nothing where there was no chunk for
/// it.
pub open spec fn region_after(
    chunks: Seq<(ChunkCoords, de::Chunk)>,
    n: int,
    block_types: &BlockTypes,
    biome_types: &BiomeTypes,
    cells: Seq<Option<LayerData>>,
) -> bool {
    &&& cells.len() == 1024
    &&& forall|i: int| 0 <= i < n ==> succeeds(&(#[trigger] chunks[i]).1, block_types, biome_types)
    &&& forall|i: int| #[trigger]
        is_last_at(chunks, n, i) ==> processes(
            &chunks[i].1,
            block_types,
            biome_types,
            Ok::<Option<LayerData>, Error>(cells[chunks[i].0.spec_offset()]),
        )
    &&& forall|slot: int|
        0 <= slot < 1024 && #[trigger] is_free(chunks, n, slot) ==> cells[slot] is None
}

/// `r` is what processing the chunks of a region gives. The first chunk
/// that fails fails the region, named by its position.
pub open spec fn processes_region(
    chunks: Seq<(ChunkCoords, de::Chunk)>,
    block_types: &BlockTypes,
    biome_types: &BiomeTypes,
    r: Result<ProcessedRegion, RegionError>,
) -> bool {
    match r {
        Ok(region) => region_after(chunks, chunks.len() as int, block_types, biome_types, region@),
        Err(error) => exists|i: int|
            {
                &&& 0 <= i < chunks.len()
                &&& (#[trigger] chunks[i]).0 == error.coords
                &&& processes(
                    &chunks[i].1,
                    block_types,
                    biome_types,
                    Err::<Option<LayerData>, Error>(error.error),
                )
                &&& forall|j: int|
                    0 <= j < i ==> succeeds(&(#[trigger] chunks[j]).1, block_types, biome_types)
            },
    }
}

/// Processing one more chunk fills its slot and leaves the others.
proof fn lemma_region_step(
    chunks: Seq<(ChunkCoords, de::Chunk)>,
    n: int,
    block_types: &BlockTypes,
    biome_types: &BiomeTypes,
    before: Seq<Option<LayerData>>,
    layer: Option<LayerData>,
)
    requires
        0 <= n < chunks.len(),
        forall|i: int| 0 <= i < chunks.len() ==> (#[trigger] chunks[i]).0.wf(),
        region_after(chunks, n, block_types, biome_types, before),
        processes(
            &chunks[n].1,
            block_types,
            biome_types,
            Ok::<Option<LayerData>, Error>(layer),
        ),
    ensures
        region_after(
            chunks,
            n + 1,
            block_types,
            biome_types,
            before.update(chunks[n].0.spec_offset(), layer),
        ),
{
    let slot_n = chunks[n].0.spec_offset();
    let after = before.update(slot_n, layer);
    assert forall|i: int| 0 <= i < n + 1 implies succeeds(
        &(#[trigger] chunks[i]).1,
        block_types,
        biome_types,
    ) by {}
    assert forall|i: int| #[trigger] is_last_at(chunks, n + 1, i) implies processes(
        &chunks[i].1,
        block_types,
        biome_types,
        Ok::<Option<LayerData>, Error>(after[chunks[i].0.spec_offset()]),
    ) by {
        assert(chunks[i].0.wf());
        assert(chunks[n].0.wf());
        if i < n {
            assert(chunks[n].0.spec_offset() != chunks[i].0.spec_offset());
            assert(is_last_at(chunks, n, i));
        }
    }
    assert forall|slot: int| 0 <= slot < 1024 && #[trigger] is_free(chunks, n + 1, slot) implies after[slot] is None by {
        assert(chunks[n].0.spec_offset() != slot);
        assert(is_free(chunks, n, slot));
    }
}

/// Processes the chunks of a region, in the order of the list.
pub fn process_region(
    chunks: &Vec<(ChunkCoords, de::Chunk)>,
    block_types: &BlockTypes,
    biome_types: &BiomeTypes,
) -> (r: Result<ProcessedRegion, RegionError>)
    requires
        forall|i: int| 0 <= i < chunks@.len() ==> (#[trigger] chunks@[i]).0.wf(),
    ensures
        processes_region(chunks@, block_types, biome_types, r),
{
    let mut region: ProcessedRegion = ChunkArray::empty();
    let mut n: usize = 0;
    proof {
        assert forall|slot: int| 0 <= slot < 1024 implies (#[trigger] region@[slot]) is None by {}
    }
    while n < chunks.len()
        invariant
            n <= chunks.len(),
            forall|i: int| 0 <= i < chunks@.len() ==> (#[trigger] chunks@[i]).0.wf(),
            region_after(chunks@, n as int, block_types, biome_types, region@),
        decreases chunks.len() - n,
    {
        let coords = chunks[n].0;
        let ghost before = region@;
        match process_chunk(&chunks[n].1, block_types, biome_types) {
            Err(error) => {
                return Err(RegionError { coords, error });
            },
            Ok(layer) => {
                region.set(coords, layer);
                proof {
                    lemma_region_step(
                        chunks@,
                        n as int,
                        block_types,
                        biome_types,
                        before,
                        region@[coords.spec_offset()],
                    );
                }
            },
        }
        n = n + 1;
    }
    Ok(region)
}

} // verus!
