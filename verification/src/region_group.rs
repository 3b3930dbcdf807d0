//! A region together with the regions around it.

use vstd::prelude::*;

verus! {

/// A 3×3 grid of values, one for a region and one for each of its eight
/// neighbours.
///
/// The centre is always there; each of the neighbours may be missing.
#[derive(Debug)]
pub struct RegionGroup<T> {
    center: T,
    neighs: Vec<Option<T>>,
}

/// The values that are there, in the order of the cells.
pub open spec fn present<T>(cells: Seq<Option<T>>) -> Seq<T>
    decreases cells.len(),
{
    if cells.len() == 0 {
        Seq::empty()
    } else {
        match cells.last() {
            Some(value) => present(cells.drop_last()).push(value),
            None => present(cells.drop_last()),
        }
    }
}

/// The X offset of the cell with an index.
pub open spec fn cell_x(index: int) -> i8 {
    (index / 3 - 1) as i8
}

/// The Z offset of the cell with an index.
pub open spec fn cell_z(index: int) -> i8 {
    (index % 3 - 1) as i8
}

/// The cell with the offsets `(x, z)` has the index `3 * x + z + 4`.
pub proof fn lemma_cell_offsets(x: i8, z: i8)
    requires
        -1 <= x <= 1,
        -1 <= z <= 1,
    ensures
        0 <= 3 * x + z + 4 < 9,
        cell_x(3 * x + z + 4) == x,
        cell_z(3 * x + z + 4) == z,
{
}

/// What a function has made of the neighbour cell of a group of offsets:
/// the value it gave, or nothing where it failed.
pub open spec fn built<T, E, F: Fn(i8, i8) -> Result<T, E>>(f: F, index: int, cell: Option<T>) -> bool {
    match cell {
        Some(value) => call_ensures(f, (cell_x(index), cell_z(index)), Ok::<T, E>(value)),
        None => index == 4 || exists|e: E|
            call_ensures(f, (cell_x(index), cell_z(index)), Err::<T, E>(e)),
    }
}

/// What a function has made of a neighbour cell: the value it gave for the
/// value that was there.
pub open spec fn mapped<T, U, F: FnMut(T) -> U>(f: F, from: Option<T>, to: Option<U>) -> bool {
    match (from, to) {
        (Some(value), Some(result)) => call_ensures(f, (value,), result),
        (None, None) => true,
        _ => false,
    }
}

/// What a function that can fail has made of a neighbour cell: the value it
/// gave for the value that was there, or nothing where it failed.
pub open spec fn try_mapped<T, U, E, F: FnMut(T) -> Result<U, E>>(
    f: F,
    from: Option<T>,
    to: Option<U>,
) -> bool {
    match (from, to) {
        (Some(value), Some(result)) => call_ensures(f, (value,), Ok::<U, E>(result)),
        (Some(value), None) => exists|e: E| call_ensures(f, (value,), Err::<U, E>(e)),
        (None, None) => true,
        (None, Some(_)) => false,
    }
}

impl<T> RegionGroup<T> {
    #[verifier::type_invariant]
    spec fn inv(&self) -> bool {
        self.neighs@.len() == 9 && self.neighs@[4] is None
    }

    /// The value of the centre.
    pub closed spec fn spec_center(&self) -> T {
        self.center
    }

    /// The nine cells row by row: the cell with the offsets `(x, z)` at index
    /// `3 * x + z + 4`. The cell in the middle is not used.
    pub closed spec fn neighs(&self) -> Seq<Option<T>> {
        self.neighs@
    }

    /// The value at the offsets `(x, z)` from the centre.
    pub open spec fn spec_get(&self, x: i8, z: i8) -> Option<T> {
        if x == 0 && z == 0 {
            Some(self.spec_center())
        } else if -1 <= x <= 1 && -1 <= z <= 1 {
            self.neighs()[3 * x + z + 4]
        } else {
            None
        }
    }

    /// Builds a group from a function that gives the value for each pair of
    /// offsets. The function is asked for the centre first, then for the
    /// neighbours row by row.
    ///
    /// A failure for the centre fails the group. A neighbour for which the
    /// function fails is missing from the group.
    pub fn new<E, F>(f: F) -> (r: Result<Self, E>) where F: Fn(i8, i8) -> Result<T, E>
        requires
            forall|x: i8, z: i8| -1 <= x <= 1 && -1 <= z <= 1 ==> call_requires(f, (x, z)),
        ensures
            match r {
                Ok(group) => {
                    &&& call_ensures(f, (0i8, 0i8), Ok::<T, E>(group.spec_center()))
                    &&& group.neighs().len() == 9
                    &&& group.neighs()[4] is None
                    &&& forall|index: int|
                        0 <= index < 9 ==> built(f, index, #[trigger] group.neighs()[index])
                },
                Err(e) => call_ensures(f, (0i8, 0i8), Err::<T, E>(e)),
            },
    {
        let center = match f(0, 0) {
            Ok(center) => center,
            Err(e) => {
                return Err(e);
            },
        };
        let mut neighs: Vec<Option<T>> = Vec::new();
        let mut index: usize = 0;
        while index < 9
            invariant
                index <= 9,
                neighs@.len() == index,
                forall|x: i8, z: i8| -1 <= x <= 1 && -1 <= z <= 1 ==> call_requires(f, (x, z)),
                index > 4 ==> neighs@[4] is None,
                forall|i: int| 0 <= i < index ==> built(f, i, #[trigger] neighs@[i]),
            decreases 9 - index,
        {
            let x: i8 = (index / 3) as i8 - 1;
            let z: i8 = (index % 3) as i8 - 1;
            let cell = if index == 4 {
                None
            } else {
                match f(x, z) {
                    Ok(value) => Some(value),
                    Err(e) => {
                        assert(call_ensures(f, (cell_x(index as int), cell_z(index as int)), Err::<T, E>(e)));
                        None
                    },
                }
            };
            neighs.push(cell);
            index = index + 1;
        }
        Ok(RegionGroup { center, neighs })
    }

    /// The value of the centre.
    pub fn center(&self) -> (r: &T)
        ensures
            *r == self.spec_center(),
    {
        &self.center
    }

    /// The value at the offsets `(x, z)` from the centre, if there is one.
    /// There is none further than one region away.
    pub fn get(&self, x: i8, z: i8) -> (r: Option<&T>)
        ensures
            match r {
                Some(value) => self.spec_get(x, z) == Some(*value),
                None => self.spec_get(x, z) is None,
            },
    {
        proof {
            use_type_invariant(self);
        }
        if x == 0 && z == 0 {
            return Some(&self.center);
        }
        if x < -1 || x > 1 || z < -1 || z > 1 {
            return None;
        }
        let index: usize = (3 * x + z + 4) as usize;
        self.neighs[index].as_ref()
    }

    /// Applies a function to every value of the group: to the centre first,
    /// then to the neighbours row by row.
    pub fn map<U, F>(self, mut f: F) -> (r: RegionGroup<U>) where F: FnMut(T) -> U
        requires
            call_requires(f, (self.spec_center(),)),
            forall|i: int|
                0 <= i < 9 && (#[trigger] self.neighs()[i]) is Some ==> call_requires(
                    f,
                    (self.neighs()[i]->0,),
                ),
        ensures
            call_ensures(f, (self.spec_center(),), r.spec_center()),
            r.neighs().len() == 9,
            forall|i: int| 0 <= i < 9 ==> mapped(f, self.neighs()[i], #[trigger] r.neighs()[i]),
    {
        proof {
            use_type_invariant(&self);
        }
        let ghost from = self.neighs();
        let ghost f0 = f;
        let RegionGroup { center, neighs } = self;
        let center = f(center);
        let mut out: Vec<Option<U>> = Vec::new();
        for entry in it: neighs
            invariant
                f == f0,
                it.seq() == from,
                from.len() == 9,
                out@.len() == it.index(),
                forall|i: int|
                    0 <= i < 9 && (#[trigger] from[i]) is Some ==> call_requires(f, (from[i]->0,)),
                forall|i: int| 0 <= i < out@.len() ==> mapped(f, from[i], #[trigger] out@[i]),
        {
            let cell = match entry {
                Some(value) => Some(f(value)),
                None => None,
            };
            out.push(cell);
        }
        assert(mapped(f, from[4], out@[4]));
        RegionGroup { center, neighs: out }
    }

    /// Applies a function that can fail to every value of the group: to the
    /// centre first, then to the neighbours row by row.
    ///
    /// A failure for the centre fails the group. A neighbour for which the
    /// function fails is missing from the result; the error is dropped.
    pub fn try_map<U, E, F>(self, mut f: F) -> (r: Result<RegionGroup<U>, E>) where
        F: FnMut(T) -> Result<U, E>,

        requires
            call_requires(f, (self.spec_center(),)),
            forall|i: int|
                0 <= i < 9 && (#[trigger] self.neighs()[i]) is Some ==> call_requires(
                    f,
                    (self.neighs()[i]->0,),
                ),
        ensures
            match r {
                Ok(group) => {
                    &&& call_ensures(f, (self.spec_center(),), Ok::<U, E>(group.spec_center()))
                    &&& group.neighs().len() == 9
                    &&& forall|i: int|
                        0 <= i < 9 ==> try_mapped(
                            f,
                            self.neighs()[i],
                            #[trigger] group.neighs()[i],
                        )
                },
                Err(e) => call_ensures(f, (self.spec_center(),), Err::<U, E>(e)),
            },
    {
        proof {
            use_type_invariant(&self);
        }
        let ghost from = self.neighs();
        let ghost f0 = f;
        let RegionGroup { center, neighs } = self;
        let center = match f(center) {
            Ok(center) => center,
            Err(e) => {
                return Err(e);
            },
        };
        let mut out: Vec<Option<U>> = Vec::new();
        for entry in it: neighs
            invariant
                f == f0,
                it.seq() == from,
                from.len() == 9,
                out@.len() == it.index(),
                forall|i: int|
                    0 <= i < 9 && (#[trigger] from[i]) is Some ==> call_requires(f, (from[i]->0,)),
                forall|i: int| 0 <= i < out@.len() ==> try_mapped(f, from[i], #[trigger] out@[i]),
        {
            let cell = match entry {
                Some(value) => match f(value) {
                    Ok(result) => Some(result),
                    Err(e) => {
                        assert(call_ensures(f, (value,), Err::<U, E>(e)));
                        None
                    },
                },
                None => None,
            };
            out.push(cell);
        }
        assert(try_mapped(f, from[4], out@[4]));
        Ok(RegionGroup { center, neighs: out })
    }

    /// The values of the group: the centre first, then the neighbours that
    /// are there, row by row.
    pub fn iter(&self) -> (r: Vec<&T>)
        ensures
            r@.len() == 1 + present(self.neighs()).len(),
            *r@[0] == self.spec_center(),
            forall|i: int|
                0 <= i < present(self.neighs()).len() ==> *(#[trigger] r@[i + 1]) == present(
                    self.neighs(),
                )[i],
    {
        proof {
            use_type_invariant(self);
        }
        let mut all: Vec<&T> = Vec::new();
        all.push(&self.center);
        let mut index: usize = 0;
        assert(self.neighs@.subrange(0, 0) =~= Seq::<Option<T>>::empty());
        while index < 9
            invariant
                index <= 9,
                self.neighs@.len() == 9,
                all@.len() == 1 + present(self.neighs@.subrange(0, index as int)).len(),
                *all@[0] == self.center,
                forall|i: int|
                    0 <= i < all@.len() - 1 ==> *(#[trigger] all@[i + 1]) == present(
                        self.neighs@.subrange(0, index as int),
                    )[i],
            decreases 9 - index,
        {
            let ghost before = self.neighs@.subrange(0, index as int);
            let ghost after = self.neighs@.subrange(0, index + 1);
            assert(after.drop_last() =~= before);
            assert(after.last() == self.neighs@[index as int]);
            if let Some(value) = &self.neighs[index] {
                all.push(value);
            }
            index = index + 1;
        }
        assert(self.neighs@.subrange(0, 9) =~= self.neighs@);
        all
    }
}

} // verus!
