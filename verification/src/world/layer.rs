//! The top layer of a chunk: what is seen of it from above.

use vstd::prelude::*;
use crate::error::{Error, ErrorContext, ErrorKind};
use crate::resource::{Biome, BlockFlag, BlockType};
use crate::types::{BlockCoord, BlockY, LayerBlockArray, LayerBlockCoords, SectionBlockCoords, SectionY};
use crate::world::chunk::{Chunk, SectionIterItem};
use crate::world::entry::SectionEntry;
use crate::world::section::{Biomes, Section};

verus! {

/// The height of a block in the world.
#[derive(Debug, Clone, Copy, PartialEq, Eq, Structural)]
pub struct BlockHeight(pub i32);

impl BlockHeight {
    /// The height of a block of a section, if the number fits.
    pub open spec fn spec_new(section: SectionY, block: BlockY) -> Option<BlockHeight> {
        let height = section.0 * 16 + block.0;
        if -0x8000_0000 <= height < 0x8000_0000 {
            Some(BlockHeight(height as i32))
        } else {
            None
        }
    }

    /// Constructs a new [`BlockHeight`] from section and block Y indices.
    ///
    /// Fails if the resulting coordinate does not fit into an `i32`.
    pub fn new(section: SectionY, block: BlockY) -> (r: Result<Self, ErrorKind>)
        ensures
            match r {
                Ok(height) => Self::spec_new(section, block) == Some(height) && height.0
                    == section.0 * 16 + block.0,
                Err(e) => e == ErrorKind::HeightOverflow && Self::spec_new(section, block) is None,
            },
    {
        let height: i64 = (section.0 as i64) * 16 + (block.0 as i64);
        if height < -0x8000_0000 || height > 0x7fff_ffff {
            Err(ErrorKind::HeightOverflow)
        } else {
            Ok(BlockHeight(height as i32))
        }
    }
}

/// What is known of a block column: the block seen from above and, below
/// water, the height of the first block that is not water.
#[derive(Debug, Clone, Copy, PartialEq, Eq, Structural)]
pub struct BlockInfo {
    pub block_type: Option<BlockType>,
    pub depth: Option<BlockHeight>,
}

impl BlockInfo {
    /// No block of the column has been seen.
    pub open spec fn spec_is_empty(self) -> bool {
        self.block_type is None
    }

    /// Nothing more is to be found out about the column.
    pub open spec fn spec_done(self) -> bool {
        self.depth is Some
    }

    /// What is known of a column after a block of it was looked at, and
    /// whether the column is done with it.
    ///
    /// A block that is not opaque changes nothing. The topmost opaque block
    /// gives the block type of the column. Water leaves the depth open; any
    /// other opaque block sets the depth to its height.
    pub open spec fn spec_fill(self, y: BlockHeight, block_type: BlockType) -> (BlockInfo, bool) {
        if !block_type.opaque {
            (self, false)
        } else {
            let seen = if self.block_type is None {
                Some(block_type)
            } else {
                self.block_type
            };
            if block_type.water {
                (BlockInfo { block_type: seen, depth: self.depth }, false)
            } else {
                (BlockInfo { block_type: seen, depth: Some(y) }, true)
            }
        }
    }

    /// Tells whether no block of the column has been seen.
    pub fn is_empty(&self) -> (r: bool)
        ensures
            r == self.spec_is_empty(),
    {
        self.block_type.is_none()
    }

    /// Tells whether nothing more is to be found out about the column.
    pub fn done(&self) -> (r: bool)
        ensures
            r == self.spec_done(),
    {
        self.depth.is_some()
    }

    /// Takes in a block of the column, at a height below the blocks taken in
    /// before. Tells whether the column is done with it.
    pub fn fill(&mut self, y: BlockHeight, block_type: BlockType) -> (r: bool)
        ensures
            (*final(self), r) == old(self).spec_fill(y, block_type),
    {
        if !block_type.is(BlockFlag::Opaque) {
            return false;
        }
        if self.block_type.is_none() {
            self.block_type = Some(block_type);
        }
        if block_type.is(BlockFlag::Water) {
            return false;
        }
        self.depth = Some(y);
        true
    }
}

impl Default for BlockInfo {
    fn default() -> (r: Self)
        ensures
            r == (BlockInfo { block_type: None, depth: None }),
    {
        BlockInfo { block_type: None, depth: None }
    }
}

/// The top layer of a chunk: for each block column what is seen of it, the
/// biome where it is seen, and the block light above it.
#[derive(Debug)]
pub struct LayerData {
    pub blocks: LayerBlockArray<BlockInfo>,
    pub biomes: LayerBlockArray<Option<Biome>>,
    pub block_light: LayerBlockArray<u8>,
}

/// What a scan knows of one block column.
pub struct Cell {
    pub block: BlockInfo,
    pub biome: Option<Biome>,
    pub light: u8,
}

impl Cell {
    /// The cell of a column of which nothing is known.
    pub open spec fn empty() -> Cell {
        Cell { block: BlockInfo { block_type: None, depth: None }, biome: None, light: 0 }
    }
}

impl LayerData {
    /// The cell of the column with a linear offset.
    pub open spec fn cell(&self, offset: int) -> Cell {
        Cell {
            block: self.blocks@[offset],
            biome: self.biomes@[offset],
            light: self.block_light@[offset],
        }
    }
}

impl Default for LayerData {
    fn default() -> (r: Self)
        ensures
            forall|offset: int| 0 <= offset < 256 ==> #[trigger] r.cell(offset) == Cell::empty(),
    {
        LayerData {
            blocks: LayerBlockArray::filled(BlockInfo { block_type: None, depth: None }),
            biomes: LayerBlockArray::filled(None),
            block_light: LayerBlockArray::filled(0),
        }
    }
}

/// What a scan knows of a column after it has looked at one more position,
/// the next one below.
///
/// A column that is done is not looked at. Else the block at the position
/// is taken in, unless there is none of a known type. Then the biome of the
/// position is noted if a block has been seen and no biome is known yet, and
/// the block light of the position if no block has been seen so far.
pub open spec fn visit(cell: Cell, section: SectionEntry, coords: SectionBlockCoords) -> Result<
    Cell,
    ErrorKind,
> {
    if cell.block.spec_done() {
        Ok(cell)
    } else {
        match section.block_at(coords) {
            Err(e) => Err(e),
            Ok(found) => match taken_in(cell.block, found, section.y, coords.y) {
                Err(e) => Err(e),
                Ok(block) => match if !block.spec_is_empty() && cell.biome is None {
                    section.biome_at(coords)
                } else {
                    Ok(cell.biome)
                } {
                    Err(e) => Err(e),
                    Ok(biome) => Ok(
                        Cell {
                            block,
                            biome,
                            light: if block.spec_is_empty() {
                                section.block_light_at(coords)
                            } else {
                                cell.light
                            },
                        },
                    ),
                },
            },
        }
    }
}

/// What is known of a column after the block found at a position was taken
/// in. The height of a block of a known type has to fit.
pub open spec fn taken_in(block: BlockInfo, found: Option<BlockType>, section: i32, y: BlockY) -> Result<
    BlockInfo,
    ErrorKind,
> {
    match found {
        None => Ok(block),
        Some(block_type) => match BlockHeight::spec_new(SectionY(section), y) {
            None => Err(ErrorKind::HeightOverflow),
            Some(height) => Ok(block.spec_fill(height, block_type).0),
        },
    }
}

/// The section that a scan from the top is in at a level: 16 levels to a
/// section, level 0 at the top of the highest section.
pub open spec fn level_section(sections: Seq<SectionEntry>, level: int) -> SectionEntry {
    sections[sections.len() - 1 - level / 16]
}

/// The position of a column at a level.
pub open spec fn level_coords(xz: LayerBlockCoords, level: int) -> SectionBlockCoords {
    SectionBlockCoords { xz, y: BlockCoord((15 - level % 16) as u8) }
}

/// What a scan from the top knows of a column after `levels` levels.
pub open spec fn column_scan(sections: Seq<SectionEntry>, xz: LayerBlockCoords, levels: nat) -> Result<
    Cell,
    ErrorKind,
>
    decreases levels,
{
    if levels == 0 {
        Ok(Cell::empty())
    } else {
        match column_scan(sections, xz, (levels - 1) as nat) {
            Err(e) => Err(e),
            Ok(cell) => visit(
                cell,
                level_section(sections, levels - 1),
                level_coords(xz, levels - 1),
            ),
        }
    }
}

/// Looks at one position of a column and takes down what is found.
fn scan_cell(layer: &mut LayerData, item: &SectionIterItem, coords: SectionBlockCoords) -> (r: Result<
    bool,
    ErrorKind,
>)
    requires
        coords.wf(),
    ensures
        match r {
            Ok(finished) => {
                &&& visit(old(layer).cell(coords.xz.spec_offset()), item@, coords) == Ok::<
                    Cell,
                    ErrorKind,
                >(final(layer).cell(coords.xz.spec_offset()))
                &&& finished == (!old(layer).cell(coords.xz.spec_offset()).block.spec_done()
                    && final(layer).cell(coords.xz.spec_offset()).block.spec_done())
                &&& forall|other: int|
                    0 <= other < 256 && other != coords.xz.spec_offset() ==> final(layer).cell(
                        other,
                    ) == old(layer).cell(other)
            },
            Err(e) => visit(old(layer).cell(coords.xz.spec_offset()), item@, coords) == Err::<
                Cell,
                ErrorKind,
            >(e),
        },
{
    broadcast use LayerBlockArray::lemma_len;

    proof {
        item.lemma_reads(item.y, coords);
    }
    let xz = coords.xz;
    let mut entry: BlockInfo = *layer.blocks.get(xz);
    if entry.done() {
        return Ok(false);
    }
    let mut finished = false;
    if let Some(block_type) = item.section.block_at(coords)? {
        let height = BlockHeight::new(item.y, coords.y)?;
        finished = entry.fill(height, block_type);
        layer.blocks.set(xz, entry);
    }
    if !entry.is_empty() && layer.biomes.get(xz).is_none() {
        let biome = item.biomes.biome_at(item.y, coords)?;
        layer.biomes.set(xz, biome);
    }
    if entry.is_empty() {
        layer.block_light.set(xz, item.block_light.block_light_at(coords));
    }
    Ok(finished)
}

/// The number of columns among the first `n` that are done.
pub open spec fn done_count(blocks: Seq<BlockInfo>, n: int) -> int
    decreases n,
{
    if n <= 0 {
        0
    } else {
        done_count(blocks, n - 1) + if blocks[n - 1].spec_done() {
            1int
        } else {
            0int
        }
    }
}

/// No more columns are done than there are, and where as many are done as
/// there are, each of them is.
proof fn lemma_done_count(blocks: Seq<BlockInfo>, n: int)
    requires
        0 <= n <= blocks.len(),
    ensures
        0 <= done_count(blocks, n) <= n,
        done_count(blocks, n) == n ==> forall|i: int| 0 <= i < n ==> (#[trigger] blocks[i]).spec_done(),
    decreases n,
{
    if n > 0 {
        lemma_done_count(blocks, n - 1);
    }
}

/// A change of one column changes the count by what it changes of that
/// column.
proof fn lemma_done_count_update(before: Seq<BlockInfo>, after: Seq<BlockInfo>, at: int, n: int)
    requires
        0 <= n <= before.len(),
        before.len() == after.len(),
        0 <= at < before.len(),
        forall|i: int| 0 <= i < before.len() && i != at ==> before[i] == after[i],
    ensures
        done_count(after, n) == done_count(before, n) + if at < n && after[at].spec_done()
            && !before[at].spec_done() {
            1int
        } else if at < n && !after[at].spec_done() && before[at].spec_done() {
            -1int
        } else {
            0int
        },
    decreases n,
{
    if n > 0 {
        lemma_done_count_update(before, after, at, n - 1);
    }
}

/// A column that is done stays as it is, however far the scan goes on.
pub proof fn lemma_done_stays(
    sections: Seq<SectionEntry>,
    xz: LayerBlockCoords,
    levels: nat,
    further: nat,
)
    requires
        levels <= further,
        column_scan(sections, xz, levels) is Ok,
        column_scan(sections, xz, levels)->Ok_0.block.spec_done(),
    ensures
        column_scan(sections, xz, further) == column_scan(sections, xz, levels),
    decreases further - levels,
{
    if levels < further {
        lemma_done_stays(sections, xz, levels, (further - 1) as nat);
    }
}

/// The scan of a chunk fails at `level` in the column at `offset`, with
/// this kind of error: no column fails above this level, and at this level
/// no column with a smaller offset does.
pub open spec fn first_failure(
    sections: Seq<SectionEntry>,
    level: nat,
    offset: int,
    kind: ErrorKind,
) -> bool {
    &&& level < 16 * sections.len()
    &&& 0 <= offset < 256
    &&& column_scan(sections, LayerBlockCoords::from_offset(offset), level + 1) == Err::<
        Cell,
        ErrorKind,
    >(kind)
    &&& forall|other: int|
        0 <= other < 256 ==> column_scan(
            sections,
            #[trigger] LayerBlockCoords::from_offset(other),
            level,
        ) is Ok
    &&& forall|other: int|
        0 <= other < offset ==> column_scan(
            sections,
            #[trigger] LayerBlockCoords::from_offset(other),
            level + 1,
        ) is Ok
}

/// Every column of the layer holds what the scan of the column through all
/// sections gives.
pub open spec fn is_top_layer(sections: Seq<SectionEntry>, layer: &LayerData) -> bool {
    &&& layer.blocks@.len() == 256
    &&& layer.biomes@.len() == 256
    &&& layer.block_light@.len() == 256
    &&& forall|offset: int|
        0 <= offset < 256 ==> column_scan(
            sections,
            LayerBlockCoords::from_offset(offset),
            16 * sections.len(),
        ) == Ok::<Cell, ErrorKind>(#[trigger] layer.cell(offset))
}

/// `r` is the top layer of a chunk with the given sections: none for a
/// chunk without sections, else what the scans of the columns give, or
/// the first failure of the scan. The scan goes through the levels from the
/// top, and at each level through the columns by their offsets.
pub open spec fn top_layer_of(sections: Seq<SectionEntry>, r: Result<Option<LayerData>, Error>) -> bool {
    match r {
        Ok(None) => sections.len() == 0,
        Ok(Some(layer)) => sections.len() > 0 && is_top_layer(sections, &layer),
        Err(error) => {
            &&& sections.len() > 0
            &&& error.context == ErrorContext::Chunk
            &&& exists|level: nat, offset: int| first_failure(sections, level, offset, error.kind)
        },
    }
}

/// The columns below `split` have been scanned through `level` and one more
/// level, the others through `level`.
#[verifier::opaque]
spec fn scanned(sections: Seq<SectionEntry>, layer: &LayerData, level: nat, split: int) -> bool {
    forall|offset: int|
        0 <= offset < 256 ==> column_scan(
            sections,
            LayerBlockCoords::from_offset(offset),
            reach(level, split, offset),
        ) == Ok::<Cell, ErrorKind>(#[trigger] layer.cell(offset))
}

/// The number of levels that the column at `offset` has been scanned
/// through.
spec fn reach(level: nat, split: int, offset: int) -> nat {
    if offset < split {
        level + 1
    } else {
        level
    }
}

/// Once every column is done, the scan can stop at any level.
proof fn lemma_all_done(
    sections: Seq<SectionEntry>,
    layer: &LayerData,
    level: nat,
    split: int,
    further: nat,
)
    requires
        scanned(sections, layer, level, split),
        layer.blocks@.len() == 256,
        done_count(layer.blocks@, 256) == 256,
        level <= further,
        split > 0 ==> level + 1 <= further,
    ensures
        scanned(sections, layer, further, 0),
{
    reveal(scanned);
    lemma_done_count(layer.blocks@, 256);
    assert forall|offset: int| 0 <= offset < 256 implies column_scan(
        sections,
        LayerBlockCoords::from_offset(offset),
        reach(further, 0, offset),
    ) == Ok::<Cell, ErrorKind>(#[trigger] layer.cell(offset)) by {
        let xz = LayerBlockCoords::from_offset(offset);
        let at: nat = reach(level, split, offset);
        assert(column_scan(sections, xz, at) == Ok::<Cell, ErrorKind>(layer.cell(offset)));
        assert(layer.blocks@[offset].spec_done());
        lemma_done_stays(sections, xz, at, further);
    }
}

/// Looking at the next position of one column moves the scan on by that
/// column.
proof fn lemma_scanned_step(
    sections: Seq<SectionEntry>,
    before: &LayerData,
    after: &LayerData,
    level: nat,
    offset: int,
)
    requires
        scanned(sections, before, level, offset),
        0 <= offset < 256,
        visit(
            before.cell(offset),
            level_section(sections, level as int),
            level_coords(LayerBlockCoords::from_offset(offset), level as int),
        ) == Ok::<Cell, ErrorKind>(after.cell(offset)),
        forall|other: int|
            0 <= other < 256 && other != offset ==> after.cell(other) == before.cell(other),
    ensures
        scanned(sections, after, level, offset + 1),
{
    reveal(scanned);
    assert forall|other: int| 0 <= other < 256 implies column_scan(
        sections,
        LayerBlockCoords::from_offset(other),
        reach(level, offset + 1, other),
    ) == Ok::<Cell, ErrorKind>(#[trigger] after.cell(other)) by {
        assert(column_scan(
            sections,
            LayerBlockCoords::from_offset(other),
            reach(level, offset, other),
        ) == Ok::<Cell, ErrorKind>(before.cell(other)));
    }
}

/// A position that cannot be looked at is the first failure of the scan.
proof fn lemma_scan_fails(
    sections: Seq<SectionEntry>,
    before: &LayerData,
    level: nat,
    offset: int,
    kind: ErrorKind,
)
    requires
        scanned(sections, before, level, offset),
        0 <= offset < 256,
        level < 16 * sections.len(),
        visit(
            before.cell(offset),
            level_section(sections, level as int),
            level_coords(LayerBlockCoords::from_offset(offset), level as int),
        ) == Err::<Cell, ErrorKind>(kind),
    ensures
        first_failure(sections, level, offset, kind),
{
    reveal(scanned);
    assert(column_scan(
        sections,
        LayerBlockCoords::from_offset(offset),
        reach(level, offset, offset),
    ) == Ok::<Cell, ErrorKind>(before.cell(offset)));
    assert forall|other: int| 0 <= other < 256 implies column_scan(
        sections,
        #[trigger] LayerBlockCoords::from_offset(other),
        level,
    ) is Ok by {
        assert(column_scan(
            sections,
            LayerBlockCoords::from_offset(other),
            reach(level, offset, other),
        ) == Ok::<Cell, ErrorKind>(before.cell(other)));
    }
    assert forall|other: int| 0 <= other < offset implies column_scan(
        sections,
        #[trigger] LayerBlockCoords::from_offset(other),
        level + 1,
    ) is Ok by {
        assert(column_scan(
            sections,
            LayerBlockCoords::from_offset(other),
            reach(level, offset, other),
        ) == Ok::<Cell, ErrorKind>(before.cell(other)));
    }
}

/// A row that was scanned to its end is a level that was scanned.
proof fn lemma_scanned_row(sections: Seq<SectionEntry>, layer: &LayerData, level: nat)
    requires
        scanned(sections, layer, level, 256),
    ensures
        scanned(sections, layer, level + 1, 0),
{
    reveal(scanned);
    assert forall|offset: int| 0 <= offset < 256 implies column_scan(
        sections,
        LayerBlockCoords::from_offset(offset),
        reach(level + 1, 0, offset),
    ) == Ok::<Cell, ErrorKind>(#[trigger] layer.cell(offset)) by {
        assert(column_scan(
            sections,
            LayerBlockCoords::from_offset(offset),
            reach(level, 256, offset),
        ) == Ok::<Cell, ErrorKind>(layer.cell(offset)));
    }
}

/// The count of the columns that are done follows a change of one column.
proof fn lemma_count_step(before: &LayerData, after: &LayerData, offset: int)
    requires
        0 <= offset < 256,
        before.blocks@.len() == 256,
        after.blocks@.len() == 256,
        forall|other: int|
            0 <= other < 256 && other != offset ==> after.cell(other) == before.cell(other),
        !before.cell(offset).block.spec_done(),
    ensures
        done_count(after.blocks@, 256) == done_count(before.blocks@, 256) + if after.cell(
            offset,
        ).block.spec_done() {
            1int
        } else {
            0int
        },
        done_count(after.blocks@, 256) <= 256,
{
    assert forall|i: int| 0 <= i < 256 && i != offset implies before.blocks@[i]
        == after.blocks@[i] by {
        assert(after.cell(i) == before.cell(i));
    }
    lemma_done_count_update(before.blocks@, after.blocks@, offset, 256);
    lemma_done_count(after.blocks@, 256);
}

/// Looks at the positions of one level, column by column, until every
/// column is done.
fn scan_row(
    layer: &mut LayerData,
    done: &mut usize,
    item: &SectionIterItem,
    y: u8,
    Ghost(sections): Ghost<Seq<SectionEntry>>,
    Ghost(level): Ghost<nat>,
) -> (r: Result<(), ErrorKind>)
    requires
        y < 16,
        level < 16 * sections.len(),
        level % 16 == 15 - y,
        item@ == level_section(sections, level as int),
        scanned(sections, old(layer), level, 0),
        *old(done) == done_count(old(layer).blocks@, 256),
        *old(done) < 256,
    ensures
        match r {
            Ok(()) => {
                &&& scanned(sections, final(layer), level + 1, 0)
                &&& *final(done) == done_count(final(layer).blocks@, 256)
                &&& *final(done) <= 256
            },
            Err(kind) => exists|offset: int| first_failure(sections, level, offset, kind),
        },
{
    let mut offset: usize = 0;
    proof {
        layer.blocks.lemma_len();
    }
    while offset < 256 && *done < 256
        invariant
            y < 16,
            offset <= 256,
            level < 16 * sections.len(),
            level % 16 == 15 - y,
            item@ == level_section(sections, level as int),
            scanned(sections, layer, level, offset as int),
            layer.blocks@.len() == 256,
            *done == done_count(layer.blocks@, 256),
            *done <= 256,
        decreases 256 - offset,
    {
        let xz = LayerBlockCoords {
            x: BlockCoord((offset % 16) as u8),
            z: BlockCoord((offset / 16) as u8),
        };
        let coords = SectionBlockCoords { xz, y: BlockCoord(y) };
        let ghost before = *layer;
        assert(xz == LayerBlockCoords::from_offset(offset as int));
        assert(coords == level_coords(xz, level as int));
        assert(xz.spec_offset() == offset);
        match scan_cell(layer, item, coords) {
            Err(kind) => {
                proof {
                    lemma_scan_fails(sections, &before, level, offset as int, kind);
                }
                return Err(kind);
            },
            Ok(finished) => {
                proof {
                    layer.blocks.lemma_len();
                    lemma_scanned_step(sections, &before, &*layer, level, offset as int);
                    if before.cell(offset as int).block.spec_done() {
                        assert(layer.cell(offset as int) == before.cell(offset as int));
                        assert forall|i: int| 0 <= i < 256 implies before.blocks@[i]
                            == layer.blocks@[i] by {
                            assert(layer.cell(i) == before.cell(i));
                        }
                        assert(layer.blocks@ =~= before.blocks@);
                    } else {
                        lemma_count_step(&before, &*layer, offset as int);
                    }
                }
                if finished {
                    *done = *done + 1;
                }
            },
        }
        offset = offset + 1;
    }
    proof {
        if offset < 256 {
            lemma_all_done(sections, &*layer, level, offset as int, level + 1);
        } else {
            lemma_scanned_row(sections, &*layer, level);
        }
    }
    Ok(())
}

/// Fills in a [`LayerData`] with the information of the chunk's top block
/// layer.
///
/// For each (X, Z) coordinate pair, the topmost opaque block is determined
/// as the block that should be visible on the rendered map. For water
/// blocks, the height of the first non-water block is additionally filled
/// in as the water depth.
pub fn top_layer(chunk: &Chunk) -> (r: Result<Option<LayerData>, Error>)
    ensures
        top_layer_of(chunk.spec_sections(), r),
{
    if chunk.is_empty() {
        return Ok(None);
    }
    let ghost all = chunk.spec_sections();
    let mut done: usize = 0;
    let mut ret = LayerData::default();
    let mut sections = chunk.sections();
    let ghost mut before: nat = 0;
    proof {
        ret.blocks.lemma_len();
        ret.biomes.lemma_len();
        ret.block_light.lemma_len();
        assert forall|i: int| 0 <= i < 256 implies !(#[trigger] ret.blocks@[i]).spec_done() by {
            assert(ret.cell(i) == Cell::empty());
        }
        lemma_done_count_none(ret.blocks@, 256);
        assert(scanned(all, &ret, 0, 0)) by {
            reveal(scanned);
            assert forall|offset: int| 0 <= offset < 256 implies column_scan(
                all,
                LayerBlockCoords::from_offset(offset),
                reach(0, 0, offset),
            ) == Ok::<Cell, ErrorKind>(#[trigger] ret.cell(offset)) by {}
        }
    }
    loop
        invariant
            all == chunk.spec_sections(),
            all.len() > 0,
            before + sections.remaining().len() == all.len(),
            forall|i: int|
                0 <= i < sections.remaining().len() ==> (#[trigger] sections.remaining()[i])@
                    == all[i],
            scanned(all, &ret, 16 * before, 0),
            ret.blocks@.len() == 256,
            ret.biomes@.len() == 256,
            ret.block_light@.len() == 256,
            done == done_count(ret.blocks@, 256),
            done <= 256,
        ensures
            scanned(all, &ret, 16 * all.len(), 0),
            ret.blocks@.len() == 256,
            ret.biomes@.len() == 256,
            ret.block_light@.len() == 256,
        decreases sections.remaining().len(),
    {
        if done == 256 {
            proof {
                if before < all.len() {
                    lemma_all_done(all, &ret, 16 * before, 0, 16 * all.len());
                }
            }
            break ;
        }
        let item = match sections.next_back() {
            Some(item) => item,
            None => {
                break ;
            },
        };
        assert(item@ == all[all.len() - 1 - before]);
        let mut y: u8 = 16;
        while y > 0 && done < 256
            invariant
                y <= 16,
                all == chunk.spec_sections(),
                before < all.len(),
                item@ == all[all.len() - 1 - before],
                scanned(all, &ret, (16 * before + (16 - y)) as nat, 0),
                done == done_count(ret.blocks@, 256),
                done <= 256,
            decreases y,
        {
            y = y - 1;
            let ghost level: nat = (16 * before + (15 - y)) as nat;
            assert(level / 16 == before && level % 16 == 15 - y);
            assert(level_section(all, level as int) == all[all.len() - 1 - before]);
            match scan_row(&mut ret, &mut done, &item, y, Ghost(all), Ghost(level)) {
                Ok(()) => {},
                Err(kind) => {
                    proof {
                        let offset = choose|offset: int| first_failure(all, level, offset, kind);
                        assert(first_failure(all, level, offset, kind));
                    }
                    return Err(kind.at_chunk());
                },
            }
        }
        proof {
            ret.blocks.lemma_len();
            ret.biomes.lemma_len();
            ret.block_light.lemma_len();
            if y > 0 {
                lemma_all_done(
                    all,
                    &ret,
                    (16 * before + (16 - y)) as nat,
                    0,
                    16 * (before + 1),
                );
            }
            before = before + 1;
        }
    }
    proof {
        reveal(scanned);
        assert forall|offset: int| 0 <= offset < 256 implies column_scan(
            all,
            LayerBlockCoords::from_offset(offset),
            16 * all.len(),
        ) == Ok::<Cell, ErrorKind>(#[trigger] ret.cell(offset)) by {
            assert(column_scan(
                all,
                LayerBlockCoords::from_offset(offset),
                reach(16 * all.len(), 0, offset),
            ) == Ok::<Cell, ErrorKind>(ret.cell(offset)));
        }
    }
    Ok(Some(ret))
}

/// Where no column is done, none is counted.
proof fn lemma_done_count_none(blocks: Seq<BlockInfo>, n: int)
    requires
        0 <= n <= blocks.len(),
        forall|i: int| 0 <= i < n ==> !(#[trigger] blocks[i]).spec_done(),
    ensures
        done_count(blocks, n) == 0,
    decreases n,
{
    if n > 0 {
        lemma_done_count_none(blocks, n - 1);
    }
}

} // verus!
