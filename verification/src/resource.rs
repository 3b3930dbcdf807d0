//! Catalogs of block types and biomes.

use vstd::prelude::*;
use vstd::array::array_fill_for_copy_types;

verus! {

/// A property a block type can have.
#[derive(Clone, Copy, Debug, PartialEq, Eq, Structural)]
pub enum BlockFlag {
    /// The block hides what lies below it.
    Opaque,
    /// The block is water: what lies below it is seen through it.
    Water,
}

/// A kind of block, as found in a block type catalog.
#[derive(Clone, Copy, Debug, PartialEq, Eq, Structural)]
pub struct BlockType {
    /// Identifies the block type within its catalog.
    pub id: u16,
    pub opaque: bool,
    pub water: bool,
}

impl BlockType {
    /// The block type has the flag.
    pub open spec fn spec_is(self, flag: BlockFlag) -> bool {
        match flag {
            BlockFlag::Opaque => self.opaque,
            BlockFlag::Water => self.water,
        }
    }

    /// Tells whether the block type has a flag.
    pub fn is(&self, flag: BlockFlag) -> (r: bool)
        ensures
            r == self.spec_is(flag),
    {
        match flag {
            BlockFlag::Opaque => self.opaque,
            BlockFlag::Water => self.water,
        }
    }
}

/// A biome, as found in a biome catalog.
#[derive(Clone, Copy, Debug, PartialEq, Eq, Structural)]
pub struct Biome {
    /// Identifies the biome within its catalog.
    pub id: u16,
}

/// The value that a list of named entries holds for a name: that of the
/// entry with this name that was added last.
pub open spec fn lookup<T>(entries: Seq<(Seq<char>, T)>, name: Seq<char>) -> Option<T>
    decreases entries.len(),
{
    if entries.len() == 0 {
        None
    } else if entries.last().0 == name {
        Some(entries.last().1)
    } else {
        lookup(entries.drop_last(), name)
    }
}

/// The names of a list of named entries, paired with the values.
pub open spec fn named<T>(entries: Seq<(String, T)>) -> Seq<(Seq<char>, T)> {
    entries.map_values(|e: (String, T)| (e.0@, e.1))
}

/// Searches a list of named entries for a name.
fn find<T: Copy>(entries: &Vec<(String, T)>, name: &String) -> (r: Option<T>)
    ensures
        r == lookup(named(entries@), name@),
{
    let mut n: usize = entries.len();
    assert(named(entries@).subrange(0, n as int) =~= named(entries@));
    while n > 0
        invariant
            n <= entries.len(),
            lookup(named(entries@), name@) == lookup(
                named(entries@).subrange(0, n as int),
                name@,
            ),
        decreases n,
    {
        let ghost prefix = named(entries@).subrange(0, n as int);
        assert(prefix.last() == (entries@[n - 1].0@, entries@[n - 1].1));
        assert(prefix.drop_last() =~= named(entries@).subrange(0, n - 1));
        n = n - 1;
        if entries[n].0 == *name {
            return Some(entries[n].1);
        }
    }
    None
}

/// The catalog of block types: one table from names, one from the numeric
/// ids and data values of the oldest format.
#[derive(Debug)]
pub struct BlockTypes {
    named: Vec<(String, BlockType)>,
    legacy: [Option<BlockType>; 4096],
}

impl BlockTypes {
    /// The named entries, in the order in which they were added.
    pub closed spec fn names(&self) -> Seq<(Seq<char>, BlockType)> {
        named(self.named@)
    }

    /// The table of the oldest format: the entry of `(id, data)` at index
    /// `id * 16 + data`.
    pub closed spec fn legacy(&self) -> Seq<Option<BlockType>> {
        self.legacy@
    }

    /// The block type that the catalog holds for a name.
    pub open spec fn spec_get(&self, name: Seq<char>) -> Option<BlockType> {
        lookup(self.names(), name)
    }

    /// The block type that the catalog holds for a numeric id and data value.
    pub open spec fn spec_get_legacy(&self, id: u8, data: u8) -> Option<BlockType> {
        if data < 16 {
            self.legacy()[id * 16 + data]
        } else {
            None
        }
    }

    /// A catalog without entries.
    pub fn new() -> (r: Self)
        ensures
            r.names() == Seq::<(Seq<char>, BlockType)>::empty(),
            r.legacy() == Seq::new(4096, |i: int| None::<BlockType>),
    {
        broadcast use vstd::array::group_array_axioms;

        let r = BlockTypes { named: Vec::new(), legacy: array_fill_for_copy_types(None) };
        assert(r.names() =~= Seq::<(Seq<char>, BlockType)>::empty());
        assert(r.legacy() =~= Seq::new(4096, |i: int| None::<BlockType>));
        r
    }

    /// Adds a named block type; it takes the place of an earlier one of the
    /// same name.
    pub fn insert(&mut self, name: String, block_type: BlockType)
        ensures
            final(self).names() == old(self).names().push((name@, block_type)),
            final(self).legacy() == old(self).legacy(),
            forall|other: Seq<char>|
                #![trigger final(self).spec_get(other)]
                final(self).spec_get(other) == if other == name@ {
                    Some(block_type)
                } else {
                    old(self).spec_get(other)
                },
    {
        let ghost before = self.names();
        self.named.push((name, block_type));
        assert(self.names() =~= before.push((name@, block_type)));
        assert(self.names().drop_last() =~= before);
    }

    /// Sets the block type of a numeric id and data value (`0..16`).
    pub fn insert_legacy(&mut self, id: u8, data: u8, block_type: BlockType)
        requires
            data < 16,
        ensures
            final(self).names() == old(self).names(),
            final(self).legacy() == old(self).legacy().update(id * 16 + data, Some(block_type)),
            final(self).legacy().len() == 4096,
    {
        broadcast use vstd::array::group_array_axioms;

        let index: usize = (id as usize) * 16 + (data as usize);
        self.legacy[index] = Some(block_type);
    }

    /// Looks up a block type by its name.
    pub fn get(&self, name: &String) -> (r: Option<BlockType>)
        ensures
            r == self.spec_get(name@),
    {
        find(&self.named, name)
    }

    /// Looks up a block type by the numeric id and data value of the oldest
    /// format. No block type has a data value of 16 or more.
    pub fn get_legacy(&self, id: u8, data: u8) -> (r: Option<BlockType>)
        ensures
            r == self.spec_get_legacy(id, data),
    {
        broadcast use vstd::array::group_array_axioms;

        if data < 16 {
            let index: usize = (id as usize) * 16 + (data as usize);
            self.legacy[index]
        } else {
            None
        }
    }
}

/// The catalog of biomes, by name.
#[derive(Debug)]
pub struct BiomeTypes {
    named: Vec<(String, Biome)>,
}

impl BiomeTypes {
    /// The entries, in the order in which they were added.
    pub closed spec fn names(&self) -> Seq<(Seq<char>, Biome)> {
        named(self.named@)
    }

    /// The biome that the catalog holds for a name.
    pub open spec fn spec_get(&self, name: Seq<char>) -> Option<Biome> {
        lookup(self.names(), name)
    }

    /// A catalog without entries.
    pub fn new() -> (r: Self)
        ensures
            r.names() == Seq::<(Seq<char>, Biome)>::empty(),
    {
        let r = BiomeTypes { named: Vec::new() };
        assert(r.names() =~= Seq::<(Seq<char>, Biome)>::empty());
        r
    }

    /// Adds a biome; it takes the place of an earlier one of the same name.
    pub fn insert(&mut self, name: String, biome: Biome)
        ensures
            final(self).names() == old(self).names().push((name@, biome)),
            forall|other: Seq<char>|
                #![trigger final(self).spec_get(other)]
                final(self).spec_get(other) == if other == name@ {
                    Some(biome)
                } else {
                    old(self).spec_get(other)
                },
    {
        let ghost before = self.names();
        self.named.push((name, biome));
        assert(self.names() =~= before.push((name@, biome)));
        assert(self.names().drop_last() =~= before);
    }

    /// Looks up a biome by its name.
    pub fn get(&self, name: &String) -> (r: Option<Biome>)
        ensures
            r == self.spec_get(name@),
    {
        find(&self.named, name)
    }
}

} // verus!
