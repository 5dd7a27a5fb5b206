use vstd::prelude::*;

use vstd::string::StringExecFns;

use crate::cell::Cell;
use crate::region::Region;
use crate::region::contains_coord;
use crate::render::glyph;
use crate::render::push_coord;
use crate::render::push_dec;
use crate::render::render_coord_list;
use crate::render::render_region;

verus! {

broadcast use vstd::seq_lib::group_seq_properties;

/// Why a construction attempt was rejected.
#[derive(Debug, PartialEq, Eq)]
pub enum ConstructionError {
    /// The same coordinate was claimed by two region entries.
    DuplicateCell((usize, usize)),
    /// Some coordinates of the grid were claimed by no region; the list is
    /// sorted ascending by row, then column.
    MissingCells(Vec<(usize, usize)>),
}

/// Reported when a read or write names a coordinate outside the grid.
#[derive(Debug, Clone, Copy, PartialEq, Eq, Structural)]
pub struct OutOfBounds;

/// Whether a coordinate lies inside a grid of the given side length.
pub open spec fn coord_in_bounds(dimension: usize, c: (usize, usize)) -> bool {
    c.0 < dimension && c.1 < dimension
}

/// Row-major order on coordinates: by row, then by column.
pub open spec fn coord_lt(a: (usize, usize), b: (usize, usize)) -> bool {
    a.0 < b.0 || (a.0 == b.0 && a.1 < b.1)
}

/// Strictly ascending in row-major order.
pub open spec fn sorted_coords(s: Seq<(usize, usize)>) -> bool {
    forall|i: int, j: int| 0 <= i < j < s.len() ==> #[trigger] coord_lt(s[i], s[j])
}

/// The in-bounds coordinates of one layout entry, in listed order.
pub open spec fn entry_claims(dimension: usize, coords: Seq<(usize, usize)>) -> Seq<(usize, usize)>
    decreases coords.len(),
{
    if coords.len() == 0 {
        Seq::empty()
    } else if coord_in_bounds(dimension, coords.last()) {
        entry_claims(dimension, coords.drop_last()).push(coords.last())
    } else {
        entry_claims(dimension, coords.drop_last())
    }
}

/// Every in-bounds coordinate the layout claims, in the order construction
/// scans them.
pub open spec fn layout_claims(
    dimension: usize,
    layout: Seq<(usize, Vec<(usize, usize)>)>,
) -> Seq<(usize, usize)>
    decreases layout.len(),
{
    if layout.len() == 0 {
        Seq::empty()
    } else {
        layout_claims(dimension, layout.drop_last()) + entry_claims(dimension, layout.last().1@)
    }
}

/// Position `j` of `s` repeats an earlier coordinate.
pub open spec fn repeat_at(s: Seq<(usize, usize)>, j: int) -> bool {
    exists|i: int| 0 <= i < j && s[i] == s[j]
}

/// Some coordinate of `s` occurs twice.
pub open spec fn has_repeat(s: Seq<(usize, usize)>) -> bool {
    exists|j: int| 0 <= j < s.len() && #[trigger] repeat_at(s, j)
}

/// `c` stands at the first position of `s` that repeats an earlier one.
pub open spec fn first_repeat_is(s: Seq<(usize, usize)>, c: (usize, usize)) -> bool {
    exists|j: int|
        {
            &&& 0 <= j < s.len()
            &&& #[trigger] repeat_at(s, j)
            &&& s[j] == c
            &&& forall|i: int| 0 <= i < j ==> !repeat_at(s, i)
        }
}

/// Some layout entry carrying identifier `id` lists `c`, which is in bounds.
pub open spec fn layout_assigns(
    dimension: usize,
    layout: Seq<(usize, Vec<(usize, usize)>)>,
    id: usize,
    c: (usize, usize),
) -> bool {
    coord_in_bounds(dimension, c) && exists|k: int|
        0 <= k < layout.len() && (#[trigger] layout[k]).0 == id && layout[k].1@.contains(c)
}

/// One more than the largest region identifier the layout names; the number
/// of regions a successful construction ends with.
pub open spec fn region_count(layout: Seq<(usize, Vec<(usize, usize)>)>) -> int
    decreases layout.len(),
{
    if layout.len() == 0 {
        0
    } else if layout.last().0 + 1 > region_count(layout.drop_last()) {
        layout.last().0 + 1
    } else {
        region_count(layout.drop_last())
    }
}

/// A layout builds a grid exactly when no in-bounds coordinate is claimed
/// twice and every coordinate of the grid is claimed.
pub open spec fn new_ok(dimension: usize, layout: Seq<(usize, Vec<(usize, usize)>)>) -> bool {
    &&& !has_repeat(layout_claims(dimension, layout))
    &&& forall|row: usize, col: usize|
        row < dimension && col < dimension ==> #[trigger] layout_claims(dimension, layout).contains(
            (row, col),
        )
}

/// Every identifier a layout names lies below its region count.
proof fn lemma_region_count_covers(layout: Seq<(usize, Vec<(usize, usize)>)>)
    ensures
        forall|k: int| 0 <= k < layout.len() ==> (#[trigger] layout[k]).0 < region_count(layout),
    decreases layout.len(),
{
    if layout.len() > 0 {
        lemma_region_count_covers(layout.drop_last());
        assert forall|k: int|
            0 <= k < layout.len() implies (#[trigger] layout[k]).0 < region_count(layout) by {
            if k < layout.len() - 1 {
                assert(layout.drop_last()[k] == layout[k]);
            }
        }
    }
}

/// Growing a layout by one entry grows its claim sequence at the end.
proof fn lemma_layout_claims_step(dimension: usize, layout: Seq<(usize, Vec<(usize, usize)>)>, k: int)
    requires
        0 <= k < layout.len(),
    ensures
        layout_claims(dimension, layout.take(k + 1)) == layout_claims(dimension, layout.take(k))
            + entry_claims(dimension, layout[k].1@),
        region_count(layout.take(k + 1)) == if layout[k].0 + 1 > region_count(layout.take(k)) {
            layout[k].0 + 1
        } else {
            region_count(layout.take(k))
        },
{
    assert(layout.take(k + 1).drop_last() =~= layout.take(k));
    assert(layout.take(k + 1).last() == layout[k]);
}

/// A prefix of an entry claims a prefix of what the whole entry claims.
proof fn lemma_entry_claims_prefix(dimension: usize, coords: Seq<(usize, usize)>, j: int)
    requires
        0 <= j <= coords.len(),
    ensures
        entry_claims(dimension, coords.take(j)).is_prefix_of(entry_claims(dimension, coords)),
    decreases coords.len() - j,
{
    if j == coords.len() {
        assert(coords.take(j) =~= coords);
    } else {
        lemma_entry_claims_prefix(dimension, coords, j + 1);
        assert(coords.take(j + 1).drop_last() =~= coords.take(j));
        assert(coords.take(j + 1).last() == coords[j]);
        let a = entry_claims(dimension, coords.take(j));
        let b = entry_claims(dimension, coords.take(j + 1));
        let whole = entry_claims(dimension, coords);
        assert(a.is_prefix_of(b));
        assert(a =~= whole.subrange(0, a.len() as int));
    }
}

/// A prefix of the layout claims a prefix of what the whole layout claims.
proof fn lemma_layout_claims_prefix(
    dimension: usize,
    layout: Seq<(usize, Vec<(usize, usize)>)>,
    k: int,
)
    requires
        0 <= k <= layout.len(),
    ensures
        layout_claims(dimension, layout.take(k)).is_prefix_of(layout_claims(dimension, layout)),
    decreases layout.len() - k,
{
    if k == layout.len() {
        assert(layout.take(k) =~= layout);
    } else {
        lemma_layout_claims_prefix(dimension, layout, k + 1);
        lemma_layout_claims_step(dimension, layout, k);
        let a = layout_claims(dimension, layout.take(k));
        let whole = layout_claims(dimension, layout);
        assert(a =~= whole.subrange(0, a.len() as int));
    }
}

/// A square grid of cells together with the regions that partition it.
#[derive(Debug)]
pub struct Grid {
    dimension: usize,
    cells: Vec<Vec<Cell>>,
    regions: Vec<Region>,
}

impl Grid {
    /// The side length of the grid.
    pub closed spec fn dim(&self) -> usize {
        self.dimension
    }

    /// The regions, indexed by their identifier.
    pub closed spec fn regions_seq(&self) -> Seq<Region> {
        self.regions@
    }

    /// The state of the cell at one coordinate.
    pub closed spec fn cell_at(&self, row: int, col: int) -> Cell {
        self.cells@[row]@[col]
    }

    /// The backing array is square with side `dim()`.
    pub closed spec fn cells_shape_ok(&self) -> bool {
        &&& self.cells@.len() == self.dimension
        &&& forall|i: int| 0 <= i < self.cells@.len() ==> (#[trigger] self.cells@[i])@.len()
            == self.dimension
    }

    /// Whether a coordinate lies inside the grid.
    pub open spec fn in_bounds(&self, c: (usize, usize)) -> bool {
        c.0 < self.dim() && c.1 < self.dim()
    }

    /// Whether some region claims the coordinate.
    pub open spec fn covered(&self, c: (usize, usize)) -> bool {
        exists|r: int|
            0 <= r < self.regions_seq().len() && (#[trigger] self.regions_seq()[r]).spec_contains(c)
    }

    /// Regions carry their position as identifier, hold no coordinate twice,
    /// and reference only in-bounds coordinates.
    pub open spec fn regions_wf(&self) -> bool {
        forall|r: int|
            0 <= r < self.regions_seq().len() ==> {
                &&& (#[trigger] self.regions_seq()[r]).id == r
                &&& self.regions_seq()[r].wf()
                &&& forall|c: (usize, usize)|
                    (#[trigger] self.regions_seq()[r].spec_contains(c)) ==> self.in_bounds(c)
            }
    }

    /// Every coordinate of the grid belongs to some region.
    pub open spec fn partition_complete(&self) -> bool {
        forall|row: usize, col: usize|
            row < self.dim() && col < self.dim() ==> #[trigger] self.covered((row, col))
    }

    /// No coordinate belongs to two regions.
    pub open spec fn partition_disjoint(&self) -> bool {
        forall|r1: int, r2: int, c: (usize, usize)|
            0 <= r1 < self.regions_seq().len() && 0 <= r2 < self.regions_seq().len()
                && #[trigger] self.regions_seq()[r1].spec_contains(c)
                && #[trigger] self.regions_seq()[r2].spec_contains(c) ==> r1 == r2
    }

    /// Every cell state is valid.
    pub open spec fn cells_wf(&self) -> bool {
        forall|row: int, col: int|
            0 <= row < self.dim() && 0 <= col < self.dim() ==> (#[trigger] self.cell_at(
                row,
                col,
            )).wf()
    }

    /// The grid invariant: a square array of valid cells, and a region
    /// collection that partitions the coordinate space exactly.
    pub open spec fn wf(&self) -> bool {
        &&& self.cells_shape_ok()
        &&& self.cells_wf()
        &&& self.regions_wf()
        &&& self.partition_complete()
        &&& self.partition_disjoint()
    }

    /// How a successfully constructed grid relates to its inputs: a square
    /// array of vacant cells, and one region per identifier up to the largest
    /// the layout names, holding exactly the in-bounds coordinates the layout
    /// assigned to it.
    pub open spec fn built_from(
        &self,
        dimension: usize,
        layout: Seq<(usize, Vec<(usize, usize)>)>,
    ) -> bool {
        &&& self.dim() == dimension
        &&& self.wf()
        &&& forall|row: int, col: int|
            0 <= row < dimension && 0 <= col < dimension ==> #[trigger] self.cell_at(row, col)
                == Cell::Vacant
        &&& self.regions_seq().len() == region_count(layout)
        &&& forall|rr: int, c: (usize, usize)| #![trigger self.regions_seq()[rr].spec_contains(c)]
            0 <= rr < self.regions_seq().len() ==> (self.regions_seq()[rr].spec_contains(c)
                <==> layout_assigns(dimension, layout, rr as usize, c))
    }

    /// Builds a grid from a layout of `(region identifier, coordinate list)`
    /// entries.  The region collection grows to cover the largest identifier
    /// named, with intervening regions left empty; out-of-bounds coordinates
    /// in the layout are ignored.  Construction fails on the first in-bounds
    /// coordinate claimed twice, and otherwise on any unclaimed coordinates,
    /// reported sorted ascending by row, then column.
    #[verifier::rlimit(100)]
    pub fn new(dimension: usize, initial_regions: Vec<(usize, Vec<(usize, usize)>)>) -> (r: Result<
        Grid,
        ConstructionError,
    >)
        ensures
            (r is Ok) <==> new_ok(dimension, initial_regions@),
            r matches Ok(g) ==> g.built_from(dimension, initial_regions@),
            r matches Err(e) ==> match e {
                ConstructionError::DuplicateCell(c) => first_repeat_is(
                    layout_claims(dimension, initial_regions@),
                    c,
                ),
                ConstructionError::MissingCells(ms) => {
                    &&& !has_repeat(layout_claims(dimension, initial_regions@))
                    &&& ms@.len() > 0
                    &&& sorted_coords(ms@)
                    &&& forall|c: (usize, usize)| #![trigger ms@.contains(c)]
                        ms@.contains(c) <==> (coord_in_bounds(dimension, c) && !layout_claims(
                            dimension,
                            initial_regions@,
                        ).contains(c))
                },
            },
    {
        let ghost layout = initial_regions@;

        // a dimension x dimension array of vacant cells
        let mut cells: Vec<Vec<Cell>> = Vec::new();
        while cells.len() < dimension
            invariant
                cells@.len() <= dimension,
                forall|i: int| 0 <= i < cells@.len() ==> (#[trigger] cells@[i])@.len() == dimension,
                forall|i: int, j2: int|
                    0 <= i < cells@.len() && 0 <= j2 < dimension ==> #[trigger] cells@[i]@[j2]
                        == Cell::Vacant,
            decreases dimension - cells@.len(),
        {
            let mut rowv: Vec<Cell> = Vec::new();
            while rowv.len() < dimension
                invariant
                    rowv@.len() <= dimension,
                    forall|j2: int| 0 <= j2 < rowv@.len() ==> #[trigger] rowv@[j2] == Cell::Vacant,
                decreases dimension - rowv@.len(),
            {
                rowv.push(Cell::Vacant);
            }
            cells.push(rowv);
        }

        let mut regions: Vec<Region> = Vec::new();
        let mut claimed: Vec<(usize, usize)> = Vec::new();
        let mut k: usize = 0;
        while k < initial_regions.len()
            invariant
                k <= layout.len(),
                cells@.len() == dimension,
                forall|i: int| 0 <= i < cells@.len() ==> (#[trigger] cells@[i])@.len() == dimension,
                forall|i: int, j2: int|
                    0 <= i < dimension && 0 <= j2 < dimension ==> #[trigger] cells@[i]@[j2]
                        == Cell::Vacant,
                regions@.len() == region_count(layout.take(k as int)),
                forall|i: int|
                    0 <= i < regions@.len() ==> (#[trigger] regions@[i]).id == i
                        && regions@[i].wf(),
                claimed@ == layout_claims(dimension, layout.take(k as int)),
                claimed@.no_duplicates(),
                forall|rr: int, c: (usize, usize)| #![trigger regions@[rr].spec_contains(c)]
                    0 <= rr < regions@.len() ==> (regions@[rr].spec_contains(c) <==> layout_assigns(
                        dimension,
                        layout.take(k as int),
                        rr as usize,
                        c,
                    )),
                forall|c: (usize, usize)|
                    #[trigger] claimed@.contains(c) ==> exists|rr: int|
                        0 <= rr < regions@.len() && (#[trigger] regions@[rr]).spec_contains(c),
                forall|rr: int, c: (usize, usize)|
                    0 <= rr < regions@.len() && #[trigger] regions@[rr].spec_contains(c)
                        ==> claimed@.contains(c),
                forall|r1: int, r2: int, c: (usize, usize)|
                    0 <= r1 < regions@.len() && 0 <= r2 < regions@.len()
                        && #[trigger] regions@[r1].spec_contains(c)
                        && #[trigger] regions@[r2].spec_contains(c) ==> r1 == r2,
            decreases layout.len() - k,
        {
            let entry_id = initial_regions[k].0;

            // grow the region collection so that index entry_id exists
            while regions.len() <= entry_id
                invariant
                    region_count(layout.take(k as int)) <= regions@.len(),
                    regions@.len() == region_count(layout.take(k as int)) || regions@.len()
                        <= entry_id + 1,
                    forall|i: int|
                        0 <= i < regions@.len() ==> (#[trigger] regions@[i]).id == i
                            && regions@[i].wf(),
                    forall|rr: int, c: (usize, usize)| #![trigger regions@[rr].spec_contains(c)]
                        0 <= rr < regions@.len() ==> (regions@[rr].spec_contains(c)
                            <==> layout_assigns(dimension, layout.take(k as int), rr as usize, c)),
                    forall|c: (usize, usize)|
                        #[trigger] claimed@.contains(c) ==> exists|rr: int|
                            0 <= rr < regions@.len() && (#[trigger] regions@[rr]).spec_contains(c),
                    forall|rr: int, c: (usize, usize)|
                        0 <= rr < regions@.len() && #[trigger] regions@[rr].spec_contains(c)
                            ==> claimed@.contains(c),
                    forall|r1: int, r2: int, c: (usize, usize)|
                        0 <= r1 < regions@.len() && 0 <= r2 < regions@.len()
                            && #[trigger] regions@[r1].spec_contains(c)
                            && #[trigger] regions@[r2].spec_contains(c) ==> r1 == r2,
                decreases entry_id + 1 - regions@.len(),
            {
                let next_id = regions.len();
                let ghost regions_before = regions@;
                regions.push(Region::new(next_id));
                proof {
                    lemma_region_count_covers(layout.take(k as int));
                    assert forall|rr: int, c: (usize, usize)|
                        0 <= rr < regions@.len() implies (#[trigger] regions@[rr].spec_contains(c)
                        <==> layout_assigns(
                        dimension,
                        layout.take(k as int),
                        rr as usize,
                        c,
                    )) by {
                        if rr < next_id {
                            assert(regions@[rr] == regions_before[rr]);
                        } else {
                            assert(!regions@[rr].spec_contains(c));
                            if layout_assigns(dimension, layout.take(k as int), rr as usize, c) {
                                let kw = choose|kw: int|
                                    0 <= kw < layout.take(k as int).len() && (#[trigger] layout.take(
                                        k as int,
                                    )[kw]).0 == rr as usize && layout.take(k as int)[kw].1@.contains(
                                        c,
                                    );
                                assert(layout.take(k as int)[kw].0 < region_count(
                                    layout.take(k as int),
                                ));
                                assert(false);
                            }
                        }
                    }
                    assert forall|c: (usize, usize)| #[trigger] claimed@.contains(c) implies exists|
                        rr: int,
                    |
                        0 <= rr < regions@.len() && (#[trigger] regions@[rr]).spec_contains(
                            c,
                        ) by {
                        let rr = choose|rr: int|
                            0 <= rr < regions_before.len() && (#[trigger] regions_before[rr]).spec_contains(
                                c,
                            );
                        assert(regions@[rr] == regions_before[rr]);
                        assert(regions@[rr].spec_contains(c));
                    }
                }
            }

            let ghost prev_claims = layout_claims(dimension, layout.take(k as int));
            let ghost coords = layout[k as int].1@;
            proof {
                lemma_layout_claims_step(dimension, layout, k as int);
                assert(coords.take(0) =~= Seq::<(usize, usize)>::empty());
                assert(claimed@ =~= prev_claims + entry_claims(dimension, coords.take(0)));
            }
            let ncoords = initial_regions[k].1.len();
            let mut j: usize = 0;
            while j < ncoords
                invariant
                    j <= ncoords,
                    k < layout.len(),
                    ncoords == coords.len(),
                    coords == layout[k as int].1@,
                    entry_id == layout[k as int].0,
                    entry_id < regions@.len(),
                    cells@.len() == dimension,
                    forall|i: int|
                        0 <= i < cells@.len() ==> (#[trigger] cells@[i])@.len() == dimension,
                    forall|i: int, j2: int|
                        0 <= i < dimension && 0 <= j2 < dimension ==> #[trigger] cells@[i]@[j2]
                            == Cell::Vacant,
                    regions@.len() == region_count(layout.take(k as int + 1)),
                    forall|i: int|
                        0 <= i < regions@.len() ==> (#[trigger] regions@[i]).id == i
                            && regions@[i].wf(),
                    claimed@ == prev_claims + entry_claims(dimension, coords.take(j as int)),
                    claimed@.no_duplicates(),
                    forall|rr: int, c: (usize, usize)| #![trigger regions@[rr].spec_contains(c)]
                        0 <= rr < regions@.len() ==> (regions@[rr].spec_contains(c) <==> (
                        layout_assigns(dimension, layout.take(k as int), rr as usize, c) || (
                        coord_in_bounds(dimension, c) && rr == entry_id && coords.take(
                            j as int,
                        ).contains(c)))),
                    forall|c: (usize, usize)|
                        #[trigger] claimed@.contains(c) ==> exists|rr: int|
                            0 <= rr < regions@.len() && (#[trigger] regions@[rr]).spec_contains(c),
                    forall|rr: int, c: (usize, usize)|
                        0 <= rr < regions@.len() && #[trigger] regions@[rr].spec_contains(c)
                            ==> claimed@.contains(c),
                    forall|r1: int, r2: int, c: (usize, usize)|
                        0 <= r1 < regions@.len() && 0 <= r2 < regions@.len()
                            && #[trigger] regions@[r1].spec_contains(c)
                            && #[trigger] regions@[r2].spec_contains(c) ==> r1 == r2,
                decreases ncoords - j,
            {
                let c = initial_regions[k].1[j];
                proof {
                    assert(coords.take(j as int + 1).drop_last() =~= coords.take(j as int));
                    assert(coords.take(j as int + 1).last() == c);
                }
                if c.0 < dimension && c.1 < dimension {
                    if contains_coord(&claimed, c.0, c.1) {
                        proof {
                            assert(claimed@.contains((c.0, c.1)));
                            assert(claimed@.contains(c));
                            let pfx = claimed@;
                            let e1 = entry_claims(dimension, coords.take(j as int + 1));
                            assert(e1 == entry_claims(dimension, coords.take(j as int)).push(c));
                            lemma_entry_claims_prefix(dimension, coords, j as int + 1);
                            lemma_layout_claims_prefix(dimension, layout, k as int + 1);
                            let full = layout_claims(dimension, layout);
                            let pk = prev_claims;
                            let ek = entry_claims(dimension, coords);
                            let pk1 = layout_claims(dimension, layout.take(k as int + 1));
                            assert(pk1 == pk + ek);
                            let p1 = pfx.push(c);
                            assert(p1 =~= pk + e1);
                            assert forall|i: int| 0 <= i < p1.len() implies p1[i] == full[i] by {
                                assert((pk + ek)[i] == full[i]);
                                if i < pk.len() {
                                    assert(p1[i] == pk[i]);
                                } else {
                                    assert(e1[i - pk.len()] == ek[i - pk.len()]);
                                }
                            }
                            let jj = pfx.len() as int;
                            assert(p1.len() <= full.len());
                            assert(full[jj] == c);
                            let i0 = choose|i0: int| 0 <= i0 < pfx.len() && pfx[i0] == c;
                            assert(full[i0] == p1[i0]);
                            assert(full[i0] == c);
                            assert(repeat_at(full, jj));
                            assert forall|i: int| 0 <= i < jj implies !repeat_at(full, i) by {
                                if repeat_at(full, i) {
                                    let i2 = choose|i2: int| 0 <= i2 < i && full[i2] == full[i];
                                    assert(pfx[i2] == full[i2]);
                                    assert(pfx[i] == full[i]);
                                }
                            }
                            assert(first_repeat_is(full, c));
                            assert(has_repeat(full));
                        }
                        return Err(ConstructionError::DuplicateCell(c));
                    }
                    claimed.push(c);
                    let ghost cells_before = cells@;
                    cells[c.0][c.1] = Cell::Vacant;
                    proof {
                        assert forall|i: int|
                            0 <= i < cells@.len() implies (#[trigger] cells@[i])@.len()
                            == dimension by {
                            if i != c.0 {
                                assert(cells@[i] == cells_before[i]);
                            }
                        }
                        assert forall|i: int, j2: int|
                            0 <= i < dimension && 0 <= j2 < dimension implies #[trigger] cells@[i]@[j2]
                            == Cell::Vacant by {
                            if i != c.0 {
                                assert(cells@[i] == cells_before[i]);
                            } else {
                                assert(cells_before[i]@[j2] == Cell::Vacant);
                            }
                        }
                    }
                    let ghost regions_b4 = regions@;
                    regions[entry_id].add_cell(c.0, c.1);
                    proof {
                        assert forall|c2: (usize, usize)| #[trigger] claimed@.contains(c2) implies
                        exists|rr: int|
                            0 <= rr < regions@.len() && (#[trigger] regions@[rr]).spec_contains(
                                c2,
                            ) by {
                            if c2 == c {
                                assert(regions@[entry_id as int].spec_contains(c));
                            } else {
                                assert(claimed@.drop_last().contains(c2));
                                let rr = choose|rr: int|
                                    0 <= rr < regions_b4.len() && (#[trigger] regions_b4[rr]).spec_contains(
                                        c2,
                                    );
                                if rr == entry_id {
                                    assert(regions@[rr].spec_contains(c2));
                                } else {
                                    assert(regions@[rr] == regions_b4[rr]);
                                    assert(regions@[rr].spec_contains(c2));
                                }
                            }
                        }
                        let oldclaimed = claimed@.drop_last();
                        assert(claimed@ == oldclaimed.push(c));
                        assert(claimed@ =~= prev_claims + entry_claims(
                            dimension,
                            coords.take(j as int + 1),
                        ));
                        assert forall|i1: int, i2: int|
                            0 <= i1 < claimed@.len() && 0 <= i2 < claimed@.len() && i1 != i2 implies
                        claimed@[i1] != claimed@[i2] by {
                            if i1 < claimed@.len() - 1 && i2 < claimed@.len() - 1 {
                                assert(oldclaimed[i1] != oldclaimed[i2]);
                            }
                        }
                    }
                } else {
                    proof {
                        assert(entry_claims(dimension, coords.take(j as int + 1)) == entry_claims(
                            dimension,
                            coords.take(j as int),
                        ));
                    }
                }
                j = j + 1;
            }
            proof {
                assert(coords.take(j as int) =~= coords);
                lemma_layout_claims_step(dimension, layout, k as int);
                assert(claimed@ == layout_claims(dimension, layout.take(k as int + 1)));
                assert forall|rr: int, c: (usize, usize)|
                    0 <= rr < regions@.len() implies (#[trigger] regions@[rr].spec_contains(c)
                    <==> layout_assigns(dimension, layout.take(k as int + 1), rr as usize, c)) by {
                    let pre = layout.take(k as int);
                    let now = layout.take(k as int + 1);
                    assert(now.drop_last() =~= pre);
                    if regions@[rr].spec_contains(c) {
                        if layout_assigns(dimension, pre, rr as usize, c) {
                            let kw = choose|kw: int|
                                0 <= kw < pre.len() && (#[trigger] pre[kw]).0 == rr as usize
                                    && pre[kw].1@.contains(c);
                            assert(now[kw] == pre[kw]);
                            assert(layout_assigns(dimension, now, rr as usize, c));
                        } else {
                            assert(now[k as int] == layout[k as int]);
                            assert(layout_assigns(dimension, now, rr as usize, c));
                        }
                    }
                    if layout_assigns(dimension, now, rr as usize, c) {
                        let kw = choose|kw: int|
                            0 <= kw < now.len() && (#[trigger] now[kw]).0 == rr as usize
                                && now[kw].1@.contains(c);
                        if kw < k as int {
                            assert(pre[kw] == now[kw]);
                            assert(layout_assigns(dimension, pre, rr as usize, c));
                        } else {
                            assert(now[kw] == layout[k as int]);
                            assert(rr == entry_id && coords.contains(c));
                        }
                        assert(regions@[rr].spec_contains(c));
                    }
                }
            }
            k = k + 1;
        }

        proof {
            assert(layout.take(k as int) =~= layout);
        }
        let ghost full = layout_claims(dimension, layout);
        proof {
            assert(claimed@ == full);
            assert forall|jj: int| 0 <= jj < full.len() implies !repeat_at(full, jj) by {
                if repeat_at(full, jj) {
                    let i2 = choose|i2: int| 0 <= i2 < jj && full[i2] == full[jj];
                }
            }
            assert(!has_repeat(full));
        }

        let ghost regs = regions@;
        let grid = Grid { dimension, cells, regions };
        proof {
            assert(grid.regions_seq() == regs);
        }

        // defense in depth: the incremental claim set already rules a
        // membership repeat out, so this scan can find nothing
        if let Some(c) = grid.check_duplicate_cells_in_regions() {
            proof {
                let (r1, i1, r2, i2) = choose|r1: int, i1: int, r2: int, i2: int|
                    {
                        &&& 0 <= r1 < grid.regions_seq().len()
                        &&& 0 <= r2 < grid.regions_seq().len()
                        &&& 0 <= i1 < grid.regions_seq()[r1].cells@.len()
                        &&& 0 <= i2 < grid.regions_seq()[r2].cells@.len()
                        &&& !(r1 == r2 && i1 == i2)
                        &&& #[trigger] grid.regions_seq()[r1].cells@[i1] == c
                        &&& #[trigger] grid.regions_seq()[r2].cells@[i2] == c
                    };
                assert(grid.regions_seq()[r1].spec_contains(c));
                assert(grid.regions_seq()[r2].spec_contains(c));
                assert(regs[r1].spec_contains(c) && regs[r2].spec_contains(c));
                assert(r1 == r2);
                assert(false);
            }
            return Err(ConstructionError::DuplicateCell(c));
        }

        match grid.check_all_cells_in_one_region() {
            Err(ms) => {
                proof {
                    assert forall|c: (usize, usize)|
                        #[trigger] ms@.contains(c) <==> (coord_in_bounds(dimension, c)
                        && !full.contains(c)) by {
                        if grid.covered(c) {
                            let rr = choose|rr: int|
                                0 <= rr < grid.regions_seq().len() && (#[trigger] grid.regions_seq()[rr]).spec_contains(
                                    c,
                                );
                            assert(regs[rr].spec_contains(c));
                            assert(claimed@.contains(c));
                        }
                        if full.contains(c) {
                            assert(claimed@.contains(c));
                            let rr = choose|rr: int|
                                0 <= rr < regs.len() && (#[trigger] regs[rr]).spec_contains(c);
                            assert(grid.regions_seq()[rr].spec_contains(c));
                            assert(grid.covered(c));
                        }
                    }
                    assert(ms@.contains(ms@[0]));
                    let c0 = ms@[0];
                    assert(!full.contains(c0) && coord_in_bounds(dimension, c0));
                    assert(!new_ok(dimension, layout));
                }
                return Err(ConstructionError::MissingCells(ms));
            },
            Ok(()) => {},
        }

        proof {
            assert forall|row: usize, col: usize|
                row < dimension && col < dimension implies #[trigger] full.contains(
                (row, col),
            ) by {
                assert(grid.covered((row, col)));
                let rr = choose|rr: int|
                    0 <= rr < grid.regions_seq().len() && (#[trigger] grid.regions_seq()[rr]).spec_contains(
                        (row, col),
                    );
                assert(regs[rr].spec_contains((row, col)));
                assert(claimed@.contains((row, col)));
            }
            assert(new_ok(dimension, layout));
            assert forall|rr: int|
                0 <= rr < grid.regions_seq().len() implies {
                    &&& (#[trigger] grid.regions_seq()[rr]).id == rr
                    &&& grid.regions_seq()[rr].wf()
                    &&& forall|c: (usize, usize)|
                        (#[trigger] grid.regions_seq()[rr].spec_contains(c)) ==> grid.in_bounds(c)
                } by {
                assert forall|c: (usize, usize)|
                    (#[trigger] grid.regions_seq()[rr].spec_contains(c)) implies grid.in_bounds(
                    c,
                ) by {
                    assert(layout_assigns(dimension, layout, rr as usize, c));
                }
            }
            assert(grid.wf());
            assert(grid.built_from(dimension, layout));
        }
        Ok(grid)
    }

    /// Two distinct membership entries — in one region or in two — record
    /// the coordinate `c`.
    pub open spec fn membership_repeat_of(&self, c: (usize, usize)) -> bool {
        exists|r1: int, i1: int, r2: int, i2: int|
            {
                &&& 0 <= r1 < self.regions_seq().len()
                &&& 0 <= r2 < self.regions_seq().len()
                &&& 0 <= i1 < self.regions_seq()[r1].cells@.len()
                &&& 0 <= i2 < self.regions_seq()[r2].cells@.len()
                &&& !(r1 == r2 && i1 == i2)
                &&& #[trigger] self.regions_seq()[r1].cells@[i1] == c
                &&& #[trigger] self.regions_seq()[r2].cells@[i2] == c
            }
    }

    /// Two distinct membership entries record the same coordinate.
    pub open spec fn membership_repeat(&self) -> bool {
        exists|c: (usize, usize)| #[trigger] self.membership_repeat_of(c)
    }

    /// Position `(r2, i2)` in the membership lists comes before `(r1, i1)`.
    pub open spec fn pos_before(&self, r1: int, i1: int, r2: int, i2: int) -> bool {
        r2 < r1 || (r2 == r1 && i2 < i1)
    }

    /// Scans every region's membership list for a coordinate recorded twice,
    /// anywhere; yields such a coordinate, or nothing when the lists are
    /// pairwise and internally disjoint.
    pub fn check_duplicate_cells_in_regions(&self) -> (r: Option<(usize, usize)>)
        ensures
            r matches Some(c) ==> self.membership_repeat_of(c),
            r is None ==> !self.membership_repeat(),
    {
        let mut visited: Vec<(usize, usize)> = Vec::new();
        let mut r: usize = 0;
        while r < self.regions.len()
            invariant
                r <= self.regions@.len(),
                forall|c: (usize, usize)|
                    #[trigger] visited@.contains(c) <==> exists|r2: int, i2: int|
                        {
                            &&& 0 <= r2 < self.regions_seq().len()
                            &&& 0 <= i2 < self.regions_seq()[r2].cells@.len()
                            &&& self.pos_before(r as int, 0, r2, i2)
                            &&& #[trigger] self.regions_seq()[r2].cells@[i2] == c
                        },
                forall|r1: int, i1: int, r2: int, i2: int|
                    {
                        &&& 0 <= r1 < self.regions_seq().len()
                        &&& 0 <= r2 < self.regions_seq().len()
                        &&& 0 <= i1 < self.regions_seq()[r1].cells@.len()
                        &&& 0 <= i2 < self.regions_seq()[r2].cells@.len()
                        &&& self.pos_before(r as int, 0, r1, i1)
                        &&& self.pos_before(r1, i1, r2, i2)
                    } ==> #[trigger] self.regions_seq()[r1].cells@[i1]
                        != #[trigger] self.regions_seq()[r2].cells@[i2],
            decreases self.regions@.len() - r,
        {
            let n = self.regions[r].cells.len();
            let mut i: usize = 0;
            while i < n
                invariant
                    r < self.regions@.len(),
                    i <= n,
                    n == self.regions_seq()[r as int].cells@.len(),
                    forall|c: (usize, usize)|
                        #[trigger] visited@.contains(c) <==> exists|r2: int, i2: int|
                            {
                                &&& 0 <= r2 < self.regions_seq().len()
                                &&& 0 <= i2 < self.regions_seq()[r2].cells@.len()
                                &&& self.pos_before(r as int, i as int, r2, i2)
                                &&& #[trigger] self.regions_seq()[r2].cells@[i2] == c
                            },
                    forall|r1: int, i1: int, r2: int, i2: int|
                        {
                            &&& 0 <= r1 < self.regions_seq().len()
                            &&& 0 <= r2 < self.regions_seq().len()
                            &&& 0 <= i1 < self.regions_seq()[r1].cells@.len()
                            &&& 0 <= i2 < self.regions_seq()[r2].cells@.len()
                            &&& self.pos_before(r as int, i as int, r1, i1)
                            &&& self.pos_before(r1, i1, r2, i2)
                        } ==> #[trigger] self.regions_seq()[r1].cells@[i1]
                            != #[trigger] self.regions_seq()[r2].cells@[i2],
                decreases n - i,
            {
                let c = self.regions[r].cells[i];
                if crate::region::contains_coord(&visited, c.0, c.1) {
                    proof {
                        assert(visited@.contains((c.0, c.1)));
                        assert(visited@.contains(c));
                        let (r2, i2) = choose|r2: int, i2: int|
                            {
                                &&& 0 <= r2 < self.regions_seq().len()
                                &&& 0 <= i2 < self.regions_seq()[r2].cells@.len()
                                &&& self.pos_before(r as int, i as int, r2, i2)
                                &&& #[trigger] self.regions_seq()[r2].cells@[i2] == c
                            };
                        assert(self.regions_seq()[r as int].cells@[i as int] == c);
                        assert(self.membership_repeat_of(c));
                    }
                    return Some(c);
                }
                visited.push(c);
                i = i + 1;
            }
            r = r + 1;
        }
        None
    }

    /// Whether some region's membership list records the coordinate.
    fn coord_covered(&self, row: usize, col: usize) -> (r: bool)
        ensures
            r == self.covered((row, col)),
    {
        let mut r: usize = 0;
        while r < self.regions.len()
            invariant
                r <= self.regions@.len(),
                forall|r2: int|
                    0 <= r2 < r ==> !(#[trigger] self.regions_seq()[r2]).spec_contains((row, col)),
            decreases self.regions@.len() - r,
        {
            if contains_coord(&self.regions[r].cells, row, col) {
                proof {
                    assert(self.regions_seq()[r as int].spec_contains((row, col)));
                }
                return true;
            }
            r = r + 1;
        }
        false
    }

    /// Checks that every coordinate of the grid belongs to some region.  On
    /// failure yields exactly the uncovered coordinates, sorted ascending by
    /// row, then column.
    pub fn check_all_cells_in_one_region(&self) -> (r: Result<(), Vec<(usize, usize)>>)
        ensures
            r is Ok <==> self.partition_complete(),
            r matches Err(ms) ==> {
                &&& ms@.len() > 0
                &&& sorted_coords(ms@)
                &&& forall|c: (usize, usize)| #![trigger ms@.contains(c)] #![trigger self.covered(c)]
                    ms@.contains(c) <==> (self.in_bounds(c) && !self.covered(c))
            },
    {
        let mut missing: Vec<(usize, usize)> = Vec::new();
        let mut row: usize = 0;
        while row < self.dimension
            invariant
                row <= self.dim(),
                sorted_coords(missing@),
                forall|i: int|
                    0 <= i < missing@.len() ==> coord_lt(#[trigger] missing@[i], (row, 0)),
                forall|c: (usize, usize)| #![trigger missing@.contains(c)] #![trigger self.covered(c)]
                    missing@.contains(c) <==> {
                        &&& self.in_bounds(c)
                        &&& c.0 < row
                        &&& !self.covered(c)
                    },
            decreases self.dim() - row,
        {
            let mut col: usize = 0;
            while col < self.dimension
                invariant
                    row < self.dim(),
                    col <= self.dim(),
                    sorted_coords(missing@),
                    forall|i: int|
                        0 <= i < missing@.len() ==> coord_lt(#[trigger] missing@[i], (row, col)),
                    forall|c: (usize, usize)| #![trigger missing@.contains(c)] #![trigger self.covered(c)]
                        missing@.contains(c) <==> {
                            &&& self.in_bounds(c)
                            &&& (c.0 < row || (c.0 == row && c.1 < col))
                            &&& !self.covered(c)
                        },
                decreases self.dim() - col,
            {
                if !self.coord_covered(row, col) {
                    missing.push((row, col));
                }
                col = col + 1;
            }
            row = row + 1;
        }
        if missing.len() == 0 {
            proof {
                assert forall|r2: usize, c2: usize|
                    r2 < self.dim() && c2 < self.dim() implies #[trigger] self.covered(
                    (r2, c2),
                ) by {
                    assert(!missing@.contains((r2, c2)));
                }
            }
            Ok(())
        } else {
            proof {
                assert(missing@.contains(missing@[0]));
                let c0 = missing@[0];
                assert(self.in_bounds(c0) && !self.covered(c0));
                assert(!self.partition_complete()) by {
                    assert(c0.0 < self.dim() && c0.1 < self.dim());
                }
            }
            Err(missing)
        }
    }

    /// Bounds-checked read of one cell.
    pub fn get_cell(&self, row: usize, col: usize) -> (r: Option<&Cell>)
        requires
            self.wf(),
        ensures
            r is Some <==> (row < self.dim() && col < self.dim()),
            r matches Some(c) ==> *c == self.cell_at(row as int, col as int),
    {
        if row < self.dimension && col < self.dimension {
            Some(&self.cells[row][col])
        } else {
            None
        }
    }

    /// Bounds-checked write of one cell.  The region partition is fixed at
    /// construction, so only the cell array changes; an out-of-bounds
    /// coordinate is reported and mutates nothing.
    pub fn set_cell(&mut self, row: usize, col: usize, cell: Cell) -> (r: Result<(), OutOfBounds>)
        requires
            old(self).wf(),
            cell.wf(),
        ensures
            final(self).wf(),
            r is Ok <==> (row < old(self).dim() && col < old(self).dim()),
            final(self).dim() == old(self).dim(),
            final(self).regions_seq() == old(self).regions_seq(),
            r is Ok ==> final(self).cell_at(row as int, col as int) == cell,
            forall|i: int, j: int|
                0 <= i < old(self).dim() && 0 <= j < old(self).dim() && !(i == row && j == col)
                    ==> #[trigger] final(self).cell_at(i, j) == old(self).cell_at(i, j),
            r is Err ==> *final(self) == *old(self),
    {
        if row < self.dimension && col < self.dimension {
            self.cells[row][col] = cell;
            proof {
                assert forall|i: int| 0 <= i < self.cells@.len() implies (
                #[trigger] self.cells@[i])@.len() == self.dimension by {
                    if i != row {
                        assert(self.cells@[i] == old(self).cells@[i]);
                    }
                }
                assert forall|i: int, j: int|
                    0 <= i < self.dim() && 0 <= j < self.dim() && !(i == row && j == col) implies
                #[trigger] self.cell_at(i, j) == old(self).cell_at(i, j) by {
                    if i != row {
                        assert(self.cells@[i] == old(self).cells@[i]);
                    }
                }
                assert(self.regions_seq() =~= old(self).regions_seq());
                assert forall|row2: usize, col2: usize|
                    row2 < self.dim() && col2 < self.dim() implies #[trigger] self.covered(
                    (row2, col2),
                ) by {
                    assert(old(self).covered((row2, col2)));
                    let r = choose|r: int|
                        0 <= r < old(self).regions_seq().len() && (#[trigger] old(
                            self,
                        ).regions_seq()[r]).spec_contains((row2, col2));
                    assert(self.regions_seq()[r].spec_contains((row2, col2)));
                }
                assert(self.regions_wf()) by {
                    assert forall|r: int| 0 <= r < self.regions_seq().len() implies {
                        &&& (#[trigger] self.regions_seq()[r]).id == r
                        &&& self.regions_seq()[r].wf()
                        &&& forall|c: (usize, usize)|
                            (#[trigger] self.regions_seq()[r].spec_contains(c)) ==> self.in_bounds(
                                c,
                            )
                    } by {
                        assert(self.regions_seq()[r] == old(self).regions_seq()[r]);
                    }
                }
            }
            Ok(())
        } else {
            Err(OutOfBounds)
        }
    }

    /// Builds a grid from positionally numbered coordinate lists: entry `i`
    /// of the list becomes region `i`.
    pub fn new_positional(dimension: usize, initial_regions: Vec<Vec<(usize, usize)>>) -> (r:
        Result<Grid, ConstructionError>)
        ensures
            (r is Ok) <==> new_ok(dimension, positional(initial_regions@)),
            r matches Ok(g) ==> g.built_from(dimension, positional(initial_regions@)),
            r matches Err(e) ==> match e {
                ConstructionError::DuplicateCell(c) => first_repeat_is(
                    layout_claims(dimension, positional(initial_regions@)),
                    c,
                ),
                ConstructionError::MissingCells(ms) => {
                    &&& !has_repeat(layout_claims(dimension, positional(initial_regions@)))
                    &&& ms@.len() > 0
                    &&& sorted_coords(ms@)
                    &&& forall|c: (usize, usize)| #![trigger ms@.contains(c)]
                        ms@.contains(c) <==> (coord_in_bounds(dimension, c) && !layout_claims(
                            dimension,
                            positional(initial_regions@),
                        ).contains(c))
                },
            },
    {
        let ghost orig = initial_regions@;
        let mut rest = initial_regions;
        let mut pairs: Vec<(usize, Vec<(usize, usize)>)> = Vec::new();
        while rest.len() > 0
            invariant
                pairs@.len() + rest@.len() == orig.len(),
                forall|m: int|
                    0 <= m < rest@.len() ==> #[trigger] rest@[m] == orig[pairs@.len() + m],
                forall|m: int|
                    0 <= m < pairs@.len() ==> #[trigger] pairs@[m] == (m as usize, orig[m]),
            decreases rest@.len(),
        {
            let id = pairs.len();
            let ghost rest_before = rest@;
            let next = rest.remove(0);
            pairs.push((id, next));
            proof {
                assert forall|m: int|
                    0 <= m < rest@.len() implies #[trigger] rest@[m] == orig[pairs@.len() + m] by {
                    assert(rest@[m] == rest_before[m + 1]);
                }
            }
        }
        proof {
            assert(pairs@ =~= positional(orig));
        }
        Grid::new(dimension, pairs)
    }

    /// The text of one row, up to a column bound.
    pub open spec fn render_row_upto(&self, row: int, ncols: int) -> Seq<char>
        decreases ncols,
    {
        if ncols <= 0 {
            Seq::empty()
        } else {
            self.render_row_upto(row, ncols - 1) + glyph(self.cell_at(row, ncols - 1))
        }
    }

    /// The grid text, up to a row bound.
    pub open spec fn render_upto(&self, nrows: int) -> Seq<char>
        decreases nrows,
    {
        if nrows <= 0 {
            Seq::empty()
        } else {
            self.render_upto(nrows - 1) + self.render_row_upto(nrows - 1, self.dim() as int)
                + seq!['\n']
        }
    }

    /// The text the grid renders as: one line per row, one three-character
    /// glyph per cell.
    pub open spec fn spec_render(&self) -> Seq<char> {
        self.render_upto(self.dim() as int)
    }

    /// Renders the grid as text.
    pub fn display(&self) -> (r: String)
        requires
            self.wf(),
        ensures
            r@ == self.spec_render(),
    {
        let mut out = String::new();
        let mut row: usize = 0;
        while row < self.dimension
            invariant
                row <= self.dim(),
                out@ == self.render_upto(row as int),
            decreases self.dim() - row,
        {
            let mut col: usize = 0;
            while col < self.dimension
                invariant
                    row < self.dim(),
                    col <= self.dim(),
                    out@ == self.render_upto(row as int) + self.render_row_upto(
                        row as int,
                        col as int,
                    ),
                decreases self.dim() - col,
            {
                let cell = self.cells[row][col];
                proof {
                    assert(cell == self.cell_at(row as int, col as int));
                    assert(cell.wf());
                }
                match cell {
                    Cell::Vacant => {
                        out.append(" . ");
                        proof {
                            reveal_strlit(" . ");
                            assert(" . "@ =~= seq![' ', '.', ' ']);
                        }
                    },
                    Cell::Number(n) => {
                        out.append(" ");
                        out.append(crate::render::digit_str(n));
                        out.append(" ");
                        proof {
                            reveal_strlit(" ");
                            assert(" "@ =~= seq![' ']);
                        }
                    },
                    Cell::Shaded => {
                        out.append(" # ");
                        proof {
                            reveal_strlit(" # ");
                            assert(" # "@ =~= seq![' ', '#', ' ']);
                        }
                    },
                }
                proof {
                    assert(out@ =~= self.render_upto(row as int) + self.render_row_upto(
                        row as int,
                        col as int + 1,
                    ));
                }
                col = col + 1;
            }
            out.append("\n");
            proof {
                reveal_strlit("\n");
                assert("\n"@ =~= seq!['\n']);
                assert(out@ =~= self.render_upto(row as int + 1));
            }
            row = row + 1;
        }
        out
    }

    /// The region listing, up to a bound.
    pub open spec fn render_regions_upto(&self, n: int) -> Seq<char>
        decreases n,
    {
        if n <= 0 {
            Seq::empty()
        } else {
            self.render_regions_upto(n - 1) + render_region(self.regions_seq()[n - 1])
        }
    }

    /// The text the region listing renders as: `Region <id>: [<coordinates>]`,
    /// one line per region.
    pub open spec fn spec_render_regions(&self) -> Seq<char> {
        self.render_regions_upto(self.regions_seq().len() as int)
    }

    /// Renders the region listing as text.
    pub fn display_regions(&self) -> (r: String)
        ensures
            r@ == self.spec_render_regions(),
    {
        let mut out = String::new();
        let mut rix: usize = 0;
        while rix < self.regions.len()
            invariant
                rix <= self.regions_seq().len(),
                out@ == self.render_regions_upto(rix as int),
            decreases self.regions_seq().len() - rix,
        {
            let ghost coords = self.regions_seq()[rix as int].cells@;
            out.append("Region ");
            let id = self.regions[rix].id;
            push_dec(&mut out, id);
            out.append(": [");
            let ghost header = out@;
            let n = self.regions[rix].cells.len();
            let mut i: usize = 0;
            while i < n
                invariant
                    rix < self.regions_seq().len(),
                    i <= n,
                    n == coords.len(),
                    coords == self.regions_seq()[rix as int].cells@,
                    out@ == header + render_coord_list(coords.take(i as int)),
                decreases n - i,
            {
                if i > 0 {
                    out.append(", ");
                }
                let c = self.regions[rix].cells[i];
                push_coord(&mut out, c);
                proof {
                    reveal_strlit(", ");
                    assert(", "@ =~= seq![',', ' ']);
                    assert(coords.take(i as int + 1).drop_last() =~= coords.take(i as int));
                    assert(coords.take(i as int + 1).last() == coords[i as int]);
                    assert(out@ =~= header + render_coord_list(coords.take(i as int + 1)));
                }
                i = i + 1;
            }
            out.append("]\n");
            proof {
                reveal_strlit("Region ");
                reveal_strlit(": [");
                reveal_strlit("]\n");
                assert("Region "@ =~= seq!['R', 'e', 'g', 'i', 'o', 'n', ' ']);
                assert(": ["@ =~= seq![':', ' ', '[']);
                assert("]\n"@ =~= seq![']', '\n']);
                assert(coords.take(n as int) =~= coords);
                assert(out@ =~= self.render_regions_upto(rix as int + 1));
            }
            rix = rix + 1;
        }
        out
    }
}

/// Partition totality: in a well-formed grid — and every grid a successful
/// construction yields is one — the union of the regions' coordinate sets is
/// exactly the full coordinate space: no gaps, and no extras.
pub proof fn lemma_partition_total(g: Grid)
    requires
        g.wf(),
    ensures
        forall|c: (usize, usize)| #[trigger] g.covered(c) <==> (c.0 < g.dim() && c.1 < g.dim()),
{
    assert forall|c: (usize, usize)|
        #[trigger] g.covered(c) <==> (c.0 < g.dim() && c.1 < g.dim()) by {
        if g.covered(c) {
            let r = choose|r: int|
                0 <= r < g.regions_seq().len() && (#[trigger] g.regions_seq()[r]).spec_contains(c);
            assert(g.in_bounds(c));
        }
        if c.0 < g.dim() && c.1 < g.dim() {
            assert(g.covered((c.0, c.1)));
            assert(c == (c.0, c.1));
        }
    }
}

/// Partition disjointness: in a well-formed grid, a coordinate two regions
/// both claim forces the two to be the same region.
pub proof fn lemma_partition_disjoint(g: Grid, r1: int, r2: int, c: (usize, usize))
    requires
        g.wf(),
        0 <= r1 < g.regions_seq().len(),
        0 <= r2 < g.regions_seq().len(),
        g.regions_seq()[r1].spec_contains(c),
        g.regions_seq()[r2].spec_contains(c),
    ensures
        r1 == r2,
{
}

/// The positional construction convention: entry `i` of the list stands for
/// region `i`.
pub open spec fn positional(layouts: Seq<Vec<(usize, usize)>>) -> Seq<(usize, Vec<(usize, usize)>)> {
    Seq::new(layouts.len(), |i: int| (i as usize, layouts[i]))
}

} // verus!
