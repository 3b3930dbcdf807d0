//! What the scan of a single block column finds.

use vstd::prelude::*;
use crate::error::{Error, ErrorKind};
use crate::resource::BlockType;
use crate::types::{LayerBlockCoords, SectionY};
use crate::world::entry::SectionEntry;
use crate::world::layer::{
    column_scan,
    first_failure,
    is_top_layer,
    lemma_done_stays,
    level_coords,
    level_section,
    top_layer_of,
    visit,
    BlockHeight,
    BlockInfo,
    Cell,
    LayerData,
};

verus! {

/// The block of a column at a level.
pub open spec fn block_on(sections: Seq<SectionEntry>, xz: LayerBlockCoords, level: int) -> Result<
    Option<BlockType>,
    ErrorKind,
> {
    level_section(sections, level).block_at(level_coords(xz, level))
}

/// The height of the blocks of a level, if the number fits.
pub open spec fn height_on(sections: Seq<SectionEntry>, xz: LayerBlockCoords, level: int) -> Option<
    BlockHeight,
> {
    BlockHeight::spec_new(SectionY(level_section(sections, level).y), level_coords(xz, level).y)
}

/// The block light of a column at a level.
pub open spec fn light_on(sections: Seq<SectionEntry>, xz: LayerBlockCoords, level: int) -> u8 {
    level_section(sections, level).block_light_at(level_coords(xz, level))
}

/// The block of a column at a level hides nothing: it has no known type or
/// is not opaque.
pub open spec fn is_clear(sections: Seq<SectionEntry>, xz: LayerBlockCoords, level: int) -> bool {
    block_on(sections, xz, level) matches Ok(found) && (found is None || !found->0.opaque)
}

/// The block of a column at a level lets the scan go on: it hides nothing,
/// or it is water.
pub open spec fn is_open(sections: Seq<SectionEntry>, xz: LayerBlockCoords, level: int) -> bool {
    block_on(sections, xz, level) matches Ok(found) && (found is None || !found->0.opaque
        || found->0.water)
}

/// The block at `level` is the topmost opaque block of the column, and it
/// has the type `block_type`.
pub open spec fn is_top_block(
    sections: Seq<SectionEntry>,
    xz: LayerBlockCoords,
    level: int,
    block_type: BlockType,
) -> bool {
    &&& 0 <= level
    &&& block_on(sections, xz, level) == Ok::<Option<BlockType>, ErrorKind>(Some(block_type))
    &&& block_type.opaque
    &&& height_on(sections, xz, level) is Some
    &&& forall|above: int| 0 <= above < level ==> #[trigger] is_clear(sections, xz, above)
}

/// The block at `level` is the topmost opaque block of the column that is
/// not water.
pub open spec fn is_floor(sections: Seq<SectionEntry>, xz: LayerBlockCoords, level: int) -> bool {
    &&& 0 <= level
    &&& block_on(sections, xz, level) matches Ok(Some(block_type)) && block_type.opaque
        && !block_type.water
    &&& forall|above: int| 0 <= above < level ==> #[trigger] is_open(sections, xz, above)
}

/// What holds of the cell of a column after a scan through `levels` levels.
///
/// A cell with a depth has a block type. The block type is that of the
/// topmost opaque block of the column; if it is no water, the depth is the
/// height of this very block. A depth is the height of the topmost opaque
/// block that is no water. A cell without a block type has seen no opaque
/// block, and one without a depth none that is no water.
pub open spec fn cell_found(
    sections: Seq<SectionEntry>,
    xz: LayerBlockCoords,
    levels: nat,
    cell: Cell,
) -> bool {
    &&& cell.block.depth is Some ==> cell.block.block_type is Some
    &&& cell.block.block_type matches Some(block_type) ==> exists|level: int|
        {
            &&& level < levels
            &&& #[trigger] is_top_block(sections, xz, level, block_type)
            &&& !block_type.water ==> cell.block.depth == height_on(sections, xz, level)
        }
    &&& cell.block.depth matches Some(depth) ==> exists|level: int|
        {
            &&& level < levels
            &&& #[trigger] is_floor(sections, xz, level)
            &&& height_on(sections, xz, level) == Some(depth)
        }
    &&& cell.block.block_type is None ==> forall|level: int|
        0 <= level < levels ==> #[trigger] is_clear(sections, xz, level)
    &&& cell.block.depth is None ==> forall|level: int|
        0 <= level < levels ==> #[trigger] is_open(sections, xz, level)
}

/// The cell that the scan of a column gives holds the topmost opaque block
/// of the column and, as its depth, the height of the topmost opaque block
/// that is no water.
pub proof fn lemma_column_scan(sections: Seq<SectionEntry>, xz: LayerBlockCoords, levels: nat)
    requires
        column_scan(sections, xz, levels) is Ok,
    ensures
        cell_found(sections, xz, levels, column_scan(sections, xz, levels)->Ok_0),
    decreases levels,
{
    if levels > 0 {
        let before = column_scan(sections, xz, (levels - 1) as nat)->Ok_0;
        let cell = column_scan(sections, xz, levels)->Ok_0;
        let at = levels - 1;
        lemma_column_scan(sections, xz, (levels - 1) as nat);
        assert(cell_found(sections, xz, (levels - 1) as nat, before));
        assert(visit(before, level_section(sections, at), level_coords(xz, at)) == Ok::<
            Cell,
            ErrorKind,
        >(cell));
        if before.block.spec_done() {
            assert(cell == before);
            let top = choose|level: int|
                {
                    &&& level < levels - 1
                    &&& #[trigger] is_top_block(sections, xz, level, before.block.block_type->0)
                    &&& !before.block.block_type->0.water ==> before.block.depth == height_on(
                        sections,
                        xz,
                        level,
                    )
                };
            assert(is_top_block(sections, xz, top, cell.block.block_type->0));
            let floor = choose|level: int|
                {
                    &&& level < levels - 1
                    &&& #[trigger] is_floor(sections, xz, level)
                    &&& height_on(sections, xz, level) == before.block.depth
                };
            assert(is_floor(sections, xz, floor));
        } else {
            let found = block_on(sections, xz, at)->Ok_0;
            assert(block_on(sections, xz, at) is Ok);
            assert forall|level: int| 0 <= level < levels - 1 implies #[trigger] is_open(
                sections,
                xz,
                level,
            ) by {}
            if before.block.block_type is Some {
                let seen = before.block.block_type->0;
                let top = choose|level: int|
                    {
                        &&& level < levels - 1
                        &&& #[trigger] is_top_block(sections, xz, level, seen)
                        &&& !seen.water ==> before.block.depth == height_on(sections, xz, level)
                    };
                assert(is_top_block(sections, xz, top, seen));
                assert(seen.water);
                assert(cell.block.block_type == Some(seen));
            } else {
                assert forall|level: int| 0 <= level < levels - 1 implies #[trigger] is_clear(
                    sections,
                    xz,
                    level,
                ) by {}
            }
            if found is Some && found->0.opaque {
                if before.block.block_type is None {
                    assert(is_top_block(sections, xz, at, found->0));
                }
                if !found->0.water {
                    assert(is_floor(sections, xz, at));
                } else {
                    assert(is_open(sections, xz, at));
                }
            } else {
                assert(is_clear(sections, xz, at));
                assert(is_open(sections, xz, at));
            }
        }
    }
}

/// A column without an opaque block leaves its cell empty, without a biome,
/// and with the block light of the lowest position.
pub proof fn lemma_column_clear(sections: Seq<SectionEntry>, xz: LayerBlockCoords, levels: nat)
    requires
        forall|level: int|
            0 <= level < levels ==> #[trigger] is_clear(sections, xz, level) && (block_on(
                sections,
                xz,
                level,
            )->Ok_0 is Some ==> height_on(sections, xz, level) is Some),
    ensures
        column_scan(sections, xz, levels) == Ok::<Cell, ErrorKind>(
            Cell {
                block: BlockInfo { block_type: None, depth: None },
                biome: None,
                light: if levels == 0 {
                    0
                } else {
                    light_on(sections, xz, levels - 1)
                },
            },
        ),
    decreases levels,
{
    if levels > 0 {
        lemma_column_clear(sections, xz, (levels - 1) as nat);
        assert(is_clear(sections, xz, levels - 1));
    }
}

/// The scan of the levels from the top down to a given level, all of them
/// water of known heights and readable biomes, has seen the water at the
/// top and no depth.
proof fn lemma_column_in_water(sections: Seq<SectionEntry>, xz: LayerBlockCoords, levels: nat)
    requires
        levels > 0,
        forall|level: int|
            0 <= level < levels ==> #[trigger] is_water(sections, xz, level),
    ensures
        column_scan(sections, xz, levels) is Ok,
        column_scan(sections, xz, levels)->Ok_0.block == (BlockInfo {
            block_type: block_on(sections, xz, 0)->Ok_0,
            depth: None,
        }),
    decreases levels,
{
    assert(is_water(sections, xz, levels - 1));
    assert(is_water(sections, xz, 0));
    if levels > 1 {
        lemma_column_in_water(sections, xz, (levels - 1) as nat);
    } else {
        reveal_with_fuel(column_scan, 2);
    }
}

/// The block of a column at a level is water, its height fits, and the biome
/// of the position can be read.
pub open spec fn is_water(sections: Seq<SectionEntry>, xz: LayerBlockCoords, level: int) -> bool {
    &&& block_on(sections, xz, level) matches Ok(Some(block_type)) && block_type.opaque
        && block_type.water
    &&& height_on(sections, xz, level) is Some
    &&& level_section(sections, level).biome_at(level_coords(xz, level)) is Ok
}

/// A column of water above a floor gives the water at the top as its block
/// type and the height of the floor as its depth.
pub proof fn lemma_column_water(
    sections: Seq<SectionEntry>,
    xz: LayerBlockCoords,
    floor: nat,
    levels: nat,
)
    requires
        0 < floor < levels,
        forall|level: int| 0 <= level < floor ==> #[trigger] is_water(sections, xz, level),
        block_on(sections, xz, floor as int) matches Ok(Some(block_type)) && block_type.opaque
            && !block_type.water,
        height_on(sections, xz, floor as int) is Some,
        level_section(sections, floor as int).biome_at(level_coords(xz, floor as int)) is Ok,
    ensures
        column_scan(sections, xz, levels) is Ok,
        column_scan(sections, xz, levels)->Ok_0.block == (BlockInfo {
            block_type: block_on(sections, xz, 0)->Ok_0,
            depth: height_on(sections, xz, floor as int),
        }),
{
    lemma_column_in_water(sections, xz, floor);
    let before = column_scan(sections, xz, floor)->Ok_0;
    assert(is_water(sections, xz, 0));
    assert(column_scan(sections, xz, (floor + 1) as nat) == visit(
        before,
        level_section(sections, floor as int),
        level_coords(xz, floor as int),
    ));
    lemma_done_stays(sections, xz, (floor + 1) as nat, levels);
}

/// Every cell of the top layer of a chunk holds the topmost opaque block of
/// its column and, as its depth, the height of the topmost opaque block
/// that is no water.
pub proof fn lemma_top_layer_cells(sections: Seq<SectionEntry>, layer: &LayerData, offset: int)
    requires
        is_top_layer(sections, layer),
        0 <= offset < 256,
    ensures
        cell_found(
            sections,
            LayerBlockCoords::from_offset(offset),
            16 * sections.len(),
            layer.cell(offset),
        ),
{
    let cell = layer.cell(offset);
    lemma_column_scan(sections, LayerBlockCoords::from_offset(offset), 16 * sections.len());
}

/// A scan that has failed in a column has failed in it at every level
/// further down, with the same error.
pub proof fn lemma_failure_stays(
    sections: Seq<SectionEntry>,
    xz: LayerBlockCoords,
    levels: nat,
    further: nat,
)
    requires
        levels <= further,
        column_scan(sections, xz, levels) is Err,
    ensures
        column_scan(sections, xz, further) == column_scan(sections, xz, levels),
    decreases further - levels,
{
    if levels < further {
        lemma_failure_stays(sections, xz, levels, (further - 1) as nat);
    }
}

/// A scan has one first failure at most.
pub proof fn lemma_first_failure_unique(
    sections: Seq<SectionEntry>,
    level: nat,
    offset: int,
    kind: ErrorKind,
    other_level: nat,
    other_offset: int,
    other_kind: ErrorKind,
)
    requires
        first_failure(sections, level, offset, kind),
        first_failure(sections, other_level, other_offset, other_kind),
    ensures
        level == other_level,
        offset == other_offset,
        kind == other_kind,
{
    let xz = LayerBlockCoords::from_offset(offset);
    let other_xz = LayerBlockCoords::from_offset(other_offset);
    if level < other_level {
        lemma_failure_stays(sections, xz, level + 1, other_level);
    } else if other_level < level {
        lemma_failure_stays(sections, other_xz, other_level + 1, level);
    }
}

/// A chunk has one top layer only: two results of a scan of the same
/// sections are both nothing, or hold the same cells, or are the same
/// error.
pub proof fn lemma_top_layer_unique(
    sections: Seq<SectionEntry>,
    a: Result<Option<LayerData>, Error>,
    b: Result<Option<LayerData>, Error>,
)
    requires
        top_layer_of(sections, a),
        top_layer_of(sections, b),
    ensures
        match (a, b) {
            (Ok(None), Ok(None)) => true,
            (Ok(Some(first)), Ok(Some(second))) => {
                &&& first.blocks@ == second.blocks@
                &&& first.biomes@ == second.biomes@
                &&& first.block_light@ == second.block_light@
            },
            (Err(first), Err(second)) => first == second,
            _ => false,
        },
{
    match (a, b) {
        (Ok(Some(first)), Ok(Some(second))) => {
            assert forall|offset: int| 0 <= offset < 256 implies first.cell(offset) == second.cell(
                offset,
            ) by {}
            assert(first.blocks@ =~= second.blocks@) by {
                assert forall|offset: int| 0 <= offset < 256 implies first.blocks@[offset]
                    == second.blocks@[offset] by {
                    assert(first.cell(offset) == second.cell(offset));
                }
            }
            assert(first.biomes@ =~= second.biomes@) by {
                assert forall|offset: int| 0 <= offset < 256 implies first.biomes@[offset]
                    == second.biomes@[offset] by {
                    assert(first.cell(offset) == second.cell(offset));
                }
            }
            assert(first.block_light@ =~= second.block_light@) by {
                assert forall|offset: int| 0 <= offset < 256 implies first.block_light@[offset]
                    == second.block_light@[offset] by {
                    assert(first.cell(offset) == second.cell(offset));
                }
            }
        },
        (Err(first), Err(second)) => {
            let (level, offset) = choose|level: nat, offset: int|
                first_failure(sections, level, offset, first.kind);
            let (other_level, other_offset) = choose|level: nat, offset: int|
                first_failure(sections, level, offset, second.kind);
            lemma_first_failure_unique(
                sections,
                level,
                offset,
                first.kind,
                other_level,
                other_offset,
                second.kind,
            );
        },
        (Ok(Some(layer)), Err(error)) => {
            lemma_layer_excludes_failure(sections, &layer, error.kind);
        },
        (Err(error), Ok(Some(layer))) => {
            lemma_layer_excludes_failure(sections, &layer, error.kind);
        },
        _ => {},
    }
}

/// A scan that gives a top layer has no failure.
proof fn lemma_layer_excludes_failure(sections: Seq<SectionEntry>, layer: &LayerData, kind: ErrorKind)
    requires
        is_top_layer(sections, layer),
    ensures
        !exists|level: nat, offset: int| first_failure(sections, level, offset, kind),
{
    if exists|level: nat, offset: int| first_failure(sections, level, offset, kind) {
        let (level, offset) = choose|level: nat, offset: int|
            first_failure(sections, level, offset, kind);
        lemma_failure_stays(
            sections,
            LayerBlockCoords::from_offset(offset),
            level + 1,
            16 * sections.len(),
        );
        assert(column_scan(sections, LayerBlockCoords::from_offset(offset), 16 * sections.len())
            == Ok::<Cell, ErrorKind>(layer.cell(offset)));
    }
}

} // verus!
