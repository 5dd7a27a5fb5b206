use vstd::prelude::*;

verus! {

broadcast use vstd::seq_lib::group_seq_properties;

/// A named subset of grid coordinates.  Together, a grid's regions
/// partition its whole coordinate space.
#[derive(Debug, Clone)]
pub struct Region {
    pub id: usize,
    pub cells: Vec<(usize, usize)>,
}

/// Whether `v` holds the coordinate `(row, col)`.
pub fn contains_coord(v: &Vec<(usize, usize)>, row: usize, col: usize) -> (r: bool)
    ensures
        r == v@.contains((row, col)),
{
    let mut i: usize = 0;
    while i < v.len()
        invariant
            i <= v.len(),
            forall|j: int| 0 <= j < i ==> v@[j] != (row, col),
        decreases v.len() - i,
    {
        if v[i].0 == row && v[i].1 == col {
            assert(v@[i as int] == (row, col));
            return true;
        }
        i = i + 1;
    }
    false
}

impl Region {
    /// Membership of one coordinate in this region.
    pub open spec fn spec_contains(&self, c: (usize, usize)) -> bool {
        self.cells@.contains(c)
    }

    /// The membership list is a set: no coordinate is recorded twice.
    pub open spec fn wf(&self) -> bool {
        self.cells@.no_duplicates()
    }

    /// Creates an empty region carrying the given identifier.
    pub fn new(id: usize) -> (r: Region)
        ensures
            r.id == id,
            r.cells@ =~= Seq::<(usize, usize)>::empty(),
            r.wf(),
    {
        Region { id, cells: Vec::new() }
    }

    /// Records that a coordinate belongs to this region.  Adding a
    /// coordinate that is already a member changes nothing.
    pub fn add_cell(&mut self, row: usize, col: usize)
        requires
            old(self).wf(),
        ensures
            final(self).id == old(self).id,
            final(self).wf(),
            forall|c: (usize, usize)|
                final(self).spec_contains(c) <==> (old(self).spec_contains(c) || c == (row, col)),
            old(self).spec_contains((row, col)) ==> final(self).cells@ == old(self).cells@,
            !old(self).spec_contains((row, col)) ==> final(self).cells@ == old(self).cells@.push(
                (row, col),
            ),
    {
        if !contains_coord(&self.cells, row, col) {
            self.cells.push((row, col));
        }
    }
}

} // verus!
