//! The spatial hash grid: divides the bounded world into a fixed grid of
//! cells and keeps, incrementally, a forward map (cell to the entities that
//! overlap it) and a reverse map (entity to the corner-cell rectangle it
//! occupies), so that the entities in a region are found by looking only at
//! the region's cells.

use crate::cells::{lemma_key_injective, within, CellPos};
use crate::geometry::{
    cell_axis, cell_axis_spec, lemma_cell_axis_in_range, lemma_cell_axis_monotone, Point, Spatial,
};
use std::collections::HashMap;
use vstd::prelude::*;

verus! {

broadcast use vstd::std_specs::hash::group_hash_axioms;

/// The entity set of one cell after an entity has been stamped onto every
/// cell of the inclusive rectangle from `lo` to `hi`.
pub open spec fn add_to_rect(before: Set<u64>, lo: CellPos, hi: CellPos, e: u64, c: CellPos) -> Set<u64> {
    if within(lo, hi, c) {
        before.insert(e)
    } else {
        before
    }
}

/// The entity set of one cell after an entity has been cleared from every
/// cell of the inclusive rectangle from `lo` to `hi`.
pub open spec fn remove_from_rect(before: Set<u64>, lo: CellPos, hi: CellPos, e: u64, c: CellPos) -> Set<u64> {
    if within(lo, hi, c) {
        before.remove(e)
    } else {
        before
    }
}

/// Divides the game/simulation map into cells.  Every entity with a position
/// and size is assigned to one or more cells, and the entities at given
/// cells are retrieved by looking only at those cells.
pub struct SpatialHashGrid {
    /// The bottom-left and top-right corner points of the world.
    bounds: (Point, Point),
    /// How many cells each axis is cut into: (columns, rows).
    dimensions: (usize, usize),
    /// Forward map, from a packed cell address to the entities at that cell.
    position_entities_map: HashMap<u64, Vec<u64>>,
    /// Reverse map, from an entity to the pair of corner cells it occupies.
    entity_indices_map: HashMap<u64, (CellPos, CellPos)>,
}

impl View for SpatialHashGrid {
    type V = Map<u64, (CellPos, CellPos)>;

    /// The grid's abstract content is its reverse map: which entities are
    /// tracked, each with its recorded corner-cell rectangle.
    closed spec fn view(&self) -> Map<u64, (CellPos, CellPos)> {
        self.entity_indices_map@
    }
}

impl SpatialHashGrid {
    /// The world's corner points, as given at construction.
    pub closed spec fn bounds_spec(self) -> (Point, Point) {
        self.bounds
    }

    /// The grid resolution, as given at construction.
    pub closed spec fn dims_spec(self) -> (usize, usize) {
        self.dimensions
    }

    /// The geometry the grid was built over: non-degenerate world bounds and
    /// at least one cell on each axis, with each axis resolution small
    /// enough that a cell index fits in 32 bits.
    pub open spec fn geom_wf(self) -> bool {
        &&& self.bounds_spec().0.x < self.bounds_spec().1.x
        &&& self.bounds_spec().0.y < self.bounds_spec().1.y
        &&& 1 <= self.dims_spec().0 <= 0x1_0000_0000
        &&& 1 <= self.dims_spec().1 <= 0x1_0000_0000
    }

    /// The entities recorded at cell `c` in the forward map.
    pub closed spec fn cell_set(self, c: CellPos) -> Set<u64> {
        if self.position_entities_map@.contains_key(c.key_spec()) {
            self.position_entities_map@[c.key_spec()]@.to_set()
        } else {
            Set::empty()
        }
    }

    /// Each forward-map bucket lists an entity at most once.
    pub closed spec fn forward_wf(self) -> bool {
        forall|k: u64| #[trigger]
            self.position_entities_map@.contains_key(k)
                ==> self.position_entities_map@[k]@.no_duplicates()
    }

    /// Structurally well formed: sound geometry and duplicate-free buckets.
    pub open spec fn wf(self) -> bool {
        self.geom_wf() && self.forward_wf()
    }

    /// Membership consistency: an entity stands in exactly the cells of its
    /// recorded corner rectangle, and an untracked entity stands in none.
    pub open spec fn consistent(self) -> bool {
        forall|c: CellPos, e: u64| #[trigger]
            self.cell_set(c).contains(e)
                <==> (self@.contains_key(e) && within(self@[e].0, self@[e].1, c))
    }

    /// The cell that the point at `(px, py)` falls into, each axis clamped
    /// to the world bounds.
    pub open spec fn cell_at(self, px: int, py: int) -> CellPos {
        CellPos {
            col: cell_axis_spec(
                px,
                self.bounds_spec().0.x as int,
                self.bounds_spec().1.x as int,
                self.dims_spec().0 as int,
            ) as u32,
            row: cell_axis_spec(
                py,
                self.bounds_spec().0.y as int,
                self.bounds_spec().1.y as int,
                self.dims_spec().1 as int,
            ) as u32,
        }
    }

    /// The corner rectangle of a bounding box: the cells of its minimum and
    /// maximum corner points.
    pub open spec fn span_of(self, sp: Spatial) -> (CellPos, CellPos) {
        (self.cell_at(sp.min_x(), sp.min_y()), self.cell_at(sp.max_x(), sp.max_y()))
    }

    /// Builds an empty grid over the given world bounds and resolution.
    /// Degenerate bounds or a zero resolution are contract violations and
    /// are ruled out up front rather than silently mis-indexed.
    pub fn new(bounds: (Point, Point), dimensions: (usize, usize)) -> (grid: Self)
        requires
            bounds.0.x < bounds.1.x,
            bounds.0.y < bounds.1.y,
            1 <= dimensions.0 <= 0x1_0000_0000,
            1 <= dimensions.1 <= 0x1_0000_0000,
        ensures
            grid.wf(),
            grid.consistent(),
            grid.bounds_spec() == bounds,
            grid.dims_spec() == dimensions,
            grid@ == Map::<u64, (CellPos, CellPos)>::empty(),
            forall|c: CellPos| #[trigger] grid.cell_set(c) == Set::<u64>::empty(),
    {
        let grid = SpatialHashGrid {
            bounds,
            dimensions,
            position_entities_map: HashMap::new(),
            entity_indices_map: HashMap::new(),
        };
        proof {
            assert forall|c: CellPos| #[trigger] grid.cell_set(c) == Set::<u64>::empty() by {
                assert(!grid.position_entities_map@.contains_key(c.key_spec()));
            }
        }
        grid
    }

    /// The cell that a point falls into; points outside the world bounds are
    /// saturated to the nearest edge cell.
    pub fn get_cell_index(&self, pos: Point) -> (c: CellPos)
        requires
            self.geom_wf(),
        ensures
            c == self.cell_at(pos.x as int, pos.y as int),
    {
        let col = cell_axis(pos.x as i128, self.bounds.0.x, self.bounds.1.x, self.dimensions.0);
        let row = cell_axis(pos.y as i128, self.bounds.0.y, self.bounds.1.y, self.dimensions.1);
        CellPos { col: col as u32, row: row as u32 }
    }

    /// Insert an entity with the given spatial properties into the grid:
    /// record its corner rectangle in the reverse map (overwriting any prior
    /// entry, without cleaning the prior rectangle up) and stamp the entity
    /// onto every cell of the rectangle.  Refreshing an entity that is
    /// already tracked is `update_entity`'s job; inserting it again instead
    /// leaves its old memberships behind.
    pub fn insert_entity(&mut self, entity: u64, spatial: Spatial)
        requires
            old(self).wf(),
            spatial.dimension.valid(),
        ensures
            final(self).wf(),
            final(self).bounds_spec() == old(self).bounds_spec(),
            final(self).dims_spec() == old(self).dims_spec(),
            final(self)@ == old(self)@.insert(entity, old(self).span_of(spatial)),
            forall|c: CellPos| #[trigger] final(self).cell_set(c) == add_to_rect(
                old(self).cell_set(c),
                old(self).span_of(spatial).0,
                old(self).span_of(spatial).1,
                entity,
                c,
            ),
            old(self).consistent() && !old(self)@.contains_key(entity)
                ==> final(self).consistent(),
    {
        let (c1, c2) = self.span_cells(&spatial);
        self.entity_indices_map.insert(entity, (c1, c2));
        let cells = c1.iter_to(c2);
        let ghost g0 = *self;
        let mut i: usize = 0;
        while i < cells.len()
            invariant
                i <= cells@.len(),
                self.bounds == g0.bounds,
                self.dimensions == g0.dimensions,
                self.entity_indices_map@ == g0.entity_indices_map@,
                self.forward_wf(),
                g0.forward_wf(),
                forall|c: CellPos| cells@.subrange(0, i as int).contains(c)
                    ==> #[trigger] self.cell_set(c) == g0.cell_set(c).insert(entity),
                forall|c: CellPos| !cells@.subrange(0, i as int).contains(c)
                    ==> #[trigger] self.cell_set(c) == g0.cell_set(c),
            decreases cells@.len() - i,
        {
            let ghost pre = *self;
            let pos = cells[i];
            let key = pos.key();
            let mut bucket: Vec<u64> = match self.position_entities_map.remove(&key) {
                Some(b) => b,
                None => Vec::new(),
            };
            proof {
                assert(bucket@.to_set() =~= pre.cell_set(pos));
                assert(bucket@.no_duplicates());
            }
            let ghost b0 = bucket@;
            let had = vec_contains(&bucket, entity);
            if !had {
                bucket.push(entity);
            }
            proof {
                broadcast use vstd::seq_lib::lemma_seq_contains_after_push;
                if !had {
                    assert(bucket@ == b0.push(entity));
                    assert(bucket@.to_set() =~= pre.cell_set(pos).insert(entity));
                    assert forall|m: int, n: int|
                        0 <= m < bucket@.len() && 0 <= n < bucket@.len() && m != n
                        implies bucket@[m] != bucket@[n] by {
                        if n == b0.len() {
                            assert(bucket@[m] == b0[m]);
                            assert(bucket@[n] == entity);
                        } else if m == b0.len() {
                            assert(bucket@[n] == b0[n]);
                            assert(bucket@[m] == entity);
                        }
                    }
                    assert(bucket@.no_duplicates());
                } else {
                    assert(bucket@.to_set() =~= pre.cell_set(pos).insert(entity));
                }
            }
            self.position_entities_map.insert(key, bucket);
            proof {
                assert(self.cell_set(pos) =~= pre.cell_set(pos).insert(entity));
                assert forall|c: CellPos| c != pos implies self.cell_set(c) == pre.cell_set(c) by {
                    if c.key_spec() == key {
                        lemma_key_injective(c, pos);
                    }
                }
                assert forall|c: CellPos| cells@.subrange(0, i + 1 as int).contains(c)
                    implies self.cell_set(c) == g0.cell_set(c).insert(entity) by {
                    if c == pos {
                        assert(self.cell_set(c) == pre.cell_set(c).insert(entity));
                        if cells@.subrange(0, i as int).contains(c) {
                            assert(pre.cell_set(c) == g0.cell_set(c).insert(entity));
                            assert(self.cell_set(c) =~= g0.cell_set(c).insert(entity));
                        } else {
                            assert(pre.cell_set(c) == g0.cell_set(c));
                        }
                    } else {
                        let j = choose|j: int|
                            0 <= j < i + 1 && #[trigger] cells@.subrange(0, i + 1 as int)[j] == c;
                        assert(cells@.subrange(0, i + 1 as int)[j] == cells@[j]);
                        assert(j != i);
                        assert(cells@.subrange(0, i as int)[j] == c);
                        assert(cells@.subrange(0, i as int).contains(c));
                        assert(pre.cell_set(c) == g0.cell_set(c).insert(entity));
                        assert(self.cell_set(c) == pre.cell_set(c));
                    }
                }
                assert forall|c: CellPos| !cells@.subrange(0, i + 1 as int).contains(c)
                    implies self.cell_set(c) == g0.cell_set(c) by {
                    assert(cells@.subrange(0, i + 1 as int)[i as int] == pos);
                    assert(cells@.subrange(0, i + 1 as int).contains(pos));
                    assert(c != pos);
                    if cells@.subrange(0, i as int).contains(c) {
                        let j = choose|j: int|
                            0 <= j < i && #[trigger] cells@.subrange(0, i as int)[j] == c;
                        assert(cells@.subrange(0, i + 1 as int)[j] == c);
                        assert(cells@.subrange(0, i + 1 as int).contains(c));
                    }
                    assert(pre.cell_set(c) == g0.cell_set(c));
                    assert(self.cell_set(c) == pre.cell_set(c));
                }
            }
            i = i + 1;
        }
        proof {
            assert(cells@.subrange(0, cells@.len() as int) =~= cells@);
            assert forall|c: CellPos| #[trigger] self.cell_set(c) == add_to_rect(
                g0.cell_set(c),
                c1,
                c2,
                entity,
                c,
            ) by {
                if within(c1, c2, c) {
                    assert(cells@.contains(c));
                } else {
                    assert(!cells@.contains(c));
                }
            }
            if old(self).consistent() && !old(self)@.contains_key(entity) {
                assert forall|c: CellPos, x: u64| #[trigger] self.cell_set(c).contains(x)
                    <==> (self@.contains_key(x) && within(self@[x].0, self@[x].1, c)) by {
                    assert(self.cell_set(c) == add_to_rect(g0.cell_set(c), c1, c2, entity, c));
                    if x == entity {
                        assert(!old(self).cell_set(c).contains(entity));
                    } else {
                        assert(old(self).cell_set(c).contains(x)
                            <==> (old(self)@.contains_key(x)
                                && within(old(self)@[x].0, old(self)@[x].1, c)));
                    }
                }
            }
        }
    }

    /// Remove an entity from the grid: clear it from every cell of its
    /// recorded corner rectangle, then drop its reverse-map entry.  If the
    /// entity is not tracked, nothing happens, so removing a handle twice is
    /// the same as removing it once.
    pub fn remove_entity(&mut self, entity: u64)
        requires
            old(self).wf(),
        ensures
            final(self).wf(),
            final(self).bounds_spec() == old(self).bounds_spec(),
            final(self).dims_spec() == old(self).dims_spec(),
            final(self)@ == old(self)@.remove(entity),
            old(self)@.contains_key(entity) ==> forall|c: CellPos| #[trigger]
                final(self).cell_set(c) == remove_from_rect(
                    old(self).cell_set(c),
                    old(self)@[entity].0,
                    old(self)@[entity].1,
                    entity,
                    c,
                ),
            !old(self)@.contains_key(entity) ==> forall|c: CellPos| #[trigger]
                final(self).cell_set(c) == old(self).cell_set(c),
            old(self).consistent() ==> final(self).consistent(),
    {
        let span = match self.entity_indices_map.get(&entity) {
            Some(s) => *s,
            None => {
                proof {
                    assert(final(self)@ =~= old(self)@.remove(entity));
                }
                return;
            },
        };
        let (c1, c2) = span;
        let cells = c1.iter_to(c2);
        let ghost g0 = *self;
        let mut i: usize = 0;
        while i < cells.len()
            invariant
                i <= cells@.len(),
                self.bounds == g0.bounds,
                self.dimensions == g0.dimensions,
                self.entity_indices_map@ == g0.entity_indices_map@,
                self.forward_wf(),
                g0.forward_wf(),
                forall|c: CellPos| cells@.subrange(0, i as int).contains(c)
                    ==> #[trigger] self.cell_set(c) == g0.cell_set(c).remove(entity),
                forall|c: CellPos| !cells@.subrange(0, i as int).contains(c)
                    ==> #[trigger] self.cell_set(c) == g0.cell_set(c),
            decreases cells@.len() - i,
        {
            let ghost pre = *self;
            let pos = cells[i];
            let key = pos.key();
            let bucket: Vec<u64> = match self.position_entities_map.remove(&key) {
                Some(b) => b,
                None => Vec::new(),
            };
            proof {
                assert(bucket@.to_set() =~= pre.cell_set(pos));
                assert(bucket@.no_duplicates());
            }
            let cleaned = vec_without(&bucket, entity);
            self.position_entities_map.insert(key, cleaned);
            proof {
                assert(self.cell_set(pos) =~= pre.cell_set(pos).remove(entity));
                assert forall|c: CellPos| c != pos implies self.cell_set(c) == pre.cell_set(c) by {
                    if c.key_spec() == key {
                        lemma_key_injective(c, pos);
                    }
                }
                assert forall|c: CellPos| cells@.subrange(0, i + 1 as int).contains(c)
                    implies self.cell_set(c) == g0.cell_set(c).remove(entity) by {
                    if c == pos {
                        assert(self.cell_set(c) == pre.cell_set(c).remove(entity));
                        if cells@.subrange(0, i as int).contains(c) {
                            assert(pre.cell_set(c) == g0.cell_set(c).remove(entity));
                            assert(self.cell_set(c) =~= g0.cell_set(c).remove(entity));
                        } else {
                            assert(pre.cell_set(c) == g0.cell_set(c));
                        }
                    } else {
                        let j = choose|j: int|
                            0 <= j < i + 1 && #[trigger] cells@.subrange(0, i + 1 as int)[j] == c;
                        assert(cells@.subrange(0, i + 1 as int)[j] == cells@[j]);
                        assert(j != i);
                        assert(cells@.subrange(0, i as int)[j] == c);
                        assert(cells@.subrange(0, i as int).contains(c));
                        assert(pre.cell_set(c) == g0.cell_set(c).remove(entity));
                        assert(self.cell_set(c) == pre.cell_set(c));
                    }
                }
                assert forall|c: CellPos| !cells@.subrange(0, i + 1 as int).contains(c)
                    implies self.cell_set(c) == g0.cell_set(c) by {
                    assert(cells@.subrange(0, i + 1 as int)[i as int] == pos);
                    assert(cells@.subrange(0, i + 1 as int).contains(pos));
                    assert(c != pos);
                    if cells@.subrange(0, i as int).contains(c) {
                        let j = choose|j: int|
                            0 <= j < i && #[trigger] cells@.subrange(0, i as int)[j] == c;
                        assert(cells@.subrange(0, i + 1 as int)[j] == c);
                        assert(cells@.subrange(0, i + 1 as int).contains(c));
                    }
                    assert(pre.cell_set(c) == g0.cell_set(c));
                    assert(self.cell_set(c) == pre.cell_set(c));
                }
            }
            i = i + 1;
        }
        let ghost g1 = *self;
        self.entity_indices_map.remove(&entity);
        proof {
            assert(self@ =~= old(self)@.remove(entity));
            assert(cells@.subrange(0, cells@.len() as int) =~= cells@);
            assert forall|c: CellPos| #[trigger] self.cell_set(c) == remove_from_rect(
                old(self).cell_set(c),
                c1,
                c2,
                entity,
                c,
            ) by {
                assert(self.cell_set(c) == g1.cell_set(c));
                if within(c1, c2, c) {
                    assert(cells@.contains(c));
                } else {
                    assert(!cells@.contains(c));
                }
            }
            if old(self).consistent() {
                assert forall|c: CellPos, x: u64| #[trigger] self.cell_set(c).contains(x)
                    <==> (self@.contains_key(x) && within(self@[x].0, self@[x].1, c)) by {
                    assert(self.cell_set(c) == remove_from_rect(
                        old(self).cell_set(c),
                        c1,
                        c2,
                        entity,
                        c,
                    ));
                    assert(old(self).cell_set(c).contains(x)
                        <==> (old(self)@.contains_key(x)
                            && within(old(self)@[x].0, old(self)@[x].1, c)));
                }
            }
        }
    }

    /// Update an entity's spatial hash with new spatial properties: its old
    /// cell memberships are removed and the new ones recorded, exactly as a
    /// removal followed by an insertion.
    pub fn update_entity(&mut self, entity: u64, spatial: Spatial)
        requires
            old(self).wf(),
            spatial.dimension.valid(),
        ensures
            final(self).wf(),
            final(self).bounds_spec() == old(self).bounds_spec(),
            final(self).dims_spec() == old(self).dims_spec(),
            final(self)@ == old(self)@.insert(entity, old(self).span_of(spatial)),
            forall|c: CellPos| #[trigger] final(self).cell_set(c) == add_to_rect(
                if old(self)@.contains_key(entity) {
                    remove_from_rect(
                        old(self).cell_set(c),
                        old(self)@[entity].0,
                        old(self)@[entity].1,
                        entity,
                        c,
                    )
                } else {
                    old(self).cell_set(c)
                },
                old(self).span_of(spatial).0,
                old(self).span_of(spatial).1,
                entity,
                c,
            ),
            old(self).consistent() ==> final(self).consistent(),
    {
        self.remove_entity(entity);
        let ghost mid = *self;
        self.insert_entity(entity, spatial);
        proof {
            assert(mid.span_of(spatial) == old(self).span_of(spatial));
            assert(self@ =~= old(self)@.insert(entity, old(self).span_of(spatial)));
            assert forall|c: CellPos| #[trigger] self.cell_set(c) == add_to_rect(
                if old(self)@.contains_key(entity) {
                    remove_from_rect(
                        old(self).cell_set(c),
                        old(self)@[entity].0,
                        old(self)@[entity].1,
                        entity,
                        c,
                    )
                } else {
                    old(self).cell_set(c)
                },
                old(self).span_of(spatial).0,
                old(self).span_of(spatial).1,
                entity,
                c,
            ) by {
                assert(self.cell_set(c) == add_to_rect(
                    mid.cell_set(c),
                    mid.span_of(spatial).0,
                    mid.span_of(spatial).1,
                    entity,
                    c,
                ));
            }
        }
    }

    /// The two corner cells of a bounding box: its minimum corner's cell and
    /// its maximum corner's cell.
    fn span_cells(&self, spatial: &Spatial) -> (span: (CellPos, CellPos))
        requires
            self.geom_wf(),
            spatial.dimension.valid(),
        ensures
            span == self.span_of(*spatial),
    {
        let half_w: i128 = ((spatial.dimension.width as u64) / 2) as i128;
        let half_h: i128 = ((spatial.dimension.height as u64) / 2) as i128;
        let x: i128 = spatial.coordinates.x as i128;
        let y: i128 = spatial.coordinates.y as i128;
        let lo = CellPos {
            col: cell_axis(x - half_w, self.bounds.0.x, self.bounds.1.x, self.dimensions.0) as u32,
            row: cell_axis(y - half_h, self.bounds.0.y, self.bounds.1.y, self.dimensions.1) as u32,
        };
        let hi = CellPos {
            col: cell_axis(x + half_w, self.bounds.0.x, self.bounds.1.x, self.dimensions.0) as u32,
            row: cell_axis(y + half_h, self.bounds.0.y, self.bounds.1.y, self.dimensions.1) as u32,
        };
        (lo, hi)
    }

    /// Return all entities which touch the cells at the given positions, as
    /// a deduplicated collection: an entity overlapping several queried
    /// cells is listed once.  Cells with no entry contribute nothing.
    pub fn get_entities_at_positions(&self, positions: &Vec<CellPos>) -> (found: Vec<u64>)
        requires
            self.wf(),
        ensures
            found@.no_duplicates(),
            forall|e: u64| #[trigger] found@.contains(e) <==> exists|j: int|
                0 <= j < positions@.len() && self.cell_set(#[trigger] positions@[j]).contains(e),
    {
        let mut found: Vec<u64> = Vec::new();
        let mut i: usize = 0;
        while i < positions.len()
            invariant
                i <= positions@.len(),
                self.wf(),
                found@.no_duplicates(),
                forall|e: u64| #[trigger] found@.contains(e) <==> exists|j: int|
                    0 <= j < i && self.cell_set(#[trigger] positions@[j]).contains(e),
            decreases positions@.len() - i,
        {
            let pos = positions[i];
            let key = pos.key();
            match self.position_entities_map.get(&key) {
                None => {
                    proof {
                        assert(self.cell_set(pos) =~= Set::<u64>::empty());
                        assert forall|e: u64| #[trigger] found@.contains(e) <==> exists|j: int|
                            0 <= j < i + 1 && self.cell_set(#[trigger] positions@[j]).contains(e) by {
                            if exists|j: int|
                                0 <= j < i + 1 && self.cell_set(#[trigger] positions@[j]).contains(e) {
                                let j = choose|j: int|
                                    0 <= j < i + 1
                                        && self.cell_set(#[trigger] positions@[j]).contains(e);
                                assert(j != i);
                            }
                        }
                    }
                },
                Some(bucket) => {
                    let ghost f0 = found@;
                    let mut k: usize = 0;
                    while k < bucket.len()
                        invariant
                            k <= bucket@.len(),
                            self.wf(),
                            0 <= i < positions@.len(),
                            self.position_entities_map@.contains_key(positions@[i as int].key_spec()),
                            bucket@ == self.position_entities_map@[positions@[i as int].key_spec()]@,
                            found@.no_duplicates(),
                            forall|e: u64| #[trigger] found@.contains(e) <==> (exists|j: int|
                                0 <= j < i && self.cell_set(#[trigger] positions@[j]).contains(e))
                                || bucket@.subrange(0, k as int).contains(e),
                        decreases bucket@.len() - k,
                    {
                        let ghost fpre = found@;
                        let x = bucket[k];
                        let dup = vec_contains(&found, x);
                        if !dup {
                            found.push(x);
                        }
                        proof {
                            broadcast use vstd::seq_lib::lemma_seq_contains_after_push;
                            assert(bucket@.subrange(0, k + 1 as int)
                                =~= bucket@.subrange(0, k as int).push(x));
                            assert forall|e: u64| #[trigger] bucket@.subrange(0, k + 1 as int).contains(e)
                                <==> bucket@.subrange(0, k as int).contains(e) || e == x by {
                                assert(bucket@.subrange(0, k as int).push(x).contains(e)
                                    <==> x == e || bucket@.subrange(0, k as int).contains(e));
                            }
                            if !dup {
                                assert forall|e: u64| #[trigger] found@.contains(e)
                                    <==> fpre.contains(e) || e == x by {
                                    assert(fpre.push(x).contains(e) <==> x == e || fpre.contains(e));
                                }
                                assert forall|m: int, n: int|
                                    0 <= m < found@.len() && 0 <= n < found@.len() && m != n
                                    implies found@[m] != found@[n] by {
                                    if n == fpre.len() {
                                        assert(found@[m] == fpre[m]);
                                    } else if m == fpre.len() {
                                        assert(found@[n] == fpre[n]);
                                    }
                                }
                                assert(found@.no_duplicates());
                            }
                        }
                        k = k + 1;
                    }
                    proof {
                        assert(bucket@.subrange(0, bucket@.len() as int) =~= bucket@);
                        assert(bucket@.to_set() == self.cell_set(pos));
                        assert forall|e: u64| #[trigger] found@.contains(e) <==> exists|j: int|
                            0 <= j < i + 1 && self.cell_set(#[trigger] positions@[j]).contains(e) by {
                            if found@.contains(e) {
                                if bucket@.contains(e) {
                                    assert(self.cell_set(positions@[i as int]).contains(e));
                                } else {
                                    let j = choose|j: int|
                                        0 <= j < i
                                            && self.cell_set(#[trigger] positions@[j]).contains(e);
                                    assert(0 <= j < i + 1
                                        && self.cell_set(positions@[j]).contains(e));
                                }
                            }
                            if exists|j: int|
                                0 <= j < i + 1 && self.cell_set(#[trigger] positions@[j]).contains(e) {
                                let j = choose|j: int|
                                    0 <= j < i + 1
                                        && self.cell_set(#[trigger] positions@[j]).contains(e);
                                if j == i {
                                    assert(bucket@.contains(e));
                                }
                            }
                        }
                    }
                },
            }
            i = i + 1;
        }
        found
    }
}

/// A copy of the bucket with the entity `x` left out.
fn vec_without(v: &Vec<u64>, x: u64) -> (out: Vec<u64>)
    requires
        v@.no_duplicates(),
    ensures
        out@.no_duplicates(),
        out@.to_set() == v@.to_set().remove(x),
{
    let mut out: Vec<u64> = Vec::new();
    let mut i: usize = 0;
    while i < v.len()
        invariant
            i <= v@.len(),
            v@.no_duplicates(),
            out@.no_duplicates(),
            out@.to_set() == v@.subrange(0, i as int).to_set().remove(x),
        decreases v@.len() - i,
    {
        let ghost o0 = out@;
        let y = v[i];
        if y != x {
            out.push(y);
        }
        proof {
            broadcast use vstd::seq_lib::lemma_seq_contains_after_push;
            broadcast use vstd::seq_lib::lemma_seq_subrange_elements;
            assert(v@.subrange(0, i + 1 as int) =~= v@.subrange(0, i as int).push(y));
            if y != x {
                assert forall|m: int, n: int|
                    0 <= m < out@.len() && 0 <= n < out@.len() && m != n
                    implies out@[m] != out@[n] by {
                    if n == o0.len() || m == o0.len() {
                        assert(!o0.to_set().contains(y)) by {
                            if o0.to_set().contains(y) {
                                let j = choose|j: int|
                                    0 <= j < i && #[trigger] v@.subrange(0, i as int)[j] == y;
                                assert(v@[j] == y && v@[i as int] == y);
                            }
                        }
                    }
                }
                assert(out@.no_duplicates());
            }
            assert forall|e: u64| #[trigger] v@.subrange(0, i + 1 as int).contains(e)
                <==> v@.subrange(0, i as int).contains(e) || e == y by {
                assert(v@.subrange(0, i as int).push(y).contains(e)
                    <==> y == e || v@.subrange(0, i as int).contains(e));
            }
            if y != x {
                assert forall|e: u64| #[trigger] out@.contains(e) <==> o0.contains(e) || e == y by {
                    assert(o0.push(y).contains(e) <==> y == e || o0.contains(e));
                }
            }
            assert forall|e: u64| out@.to_set().contains(e)
                <==> v@.subrange(0, i + 1 as int).to_set().remove(x).contains(e) by {
                assert(out@.to_set().contains(e) <==> out@.contains(e));
                assert(o0.to_set().contains(e) <==> o0.contains(e));
                assert(v@.subrange(0, i as int).to_set().contains(e)
                    <==> v@.subrange(0, i as int).contains(e));
                assert(v@.subrange(0, i + 1 as int).to_set().contains(e)
                    <==> v@.subrange(0, i + 1 as int).contains(e));
                assert(o0.to_set().contains(e)
                    <==> v@.subrange(0, i as int).to_set().remove(x).contains(e));
            }
            assert(out@.to_set() =~= v@.subrange(0, i + 1 as int).to_set().remove(x));
        }
        i = i + 1;
    }
    proof {
        assert(v@.subrange(0, v@.len() as int) =~= v@);
    }
    out
}

/// True exactly when the bucket lists the entity.
fn vec_contains(v: &Vec<u64>, x: u64) -> (found: bool)
    ensures
        found == v@.contains(x),
{
    let mut i: usize = 0;
    while i < v.len()
        invariant
            i <= v.len(),
            forall|j: int| 0 <= j < i ==> v@[j] != x,
        decreases v.len() - i,
    {
        if v[i] == x {
            return true;
        }
        i = i + 1;
    }
    false
}

/// Query completeness: in a consistent grid, a tracked entity is found in
/// every cell of its recorded corner rectangle.  Combined with
/// `get_entities_at_positions`, which returns exactly the entities found in
/// some queried cell, querying such a cell returns the entity.
pub proof fn lemma_query_completeness(g: SpatialHashGrid, e: u64, c: CellPos)
    requires
        g.consistent(),
        g@.contains_key(e),
        within(g@[e].0, g@[e].1, c),
    ensures
        g.cell_set(c).contains(e),
{
}

/// Query soundness: in a consistent grid, an entity is found in no cell
/// outside its recorded corner rectangle, and an untracked entity is found
/// nowhere.  Combined with `get_entities_at_positions`, querying such cells
/// does not return the entity.
pub proof fn lemma_query_soundness(g: SpatialHashGrid, e: u64, c: CellPos)
    requires
        g.consistent(),
        g@.contains_key(e) ==> !within(g@[e].0, g@[e].1, c),
    ensures
        !g.cell_set(c).contains(e),
{
}

/// What a region query observes, characterized by the reverse map alone:
/// in a consistent grid, an entity is found in some cell of a queried
/// region exactly when it is tracked and its recorded corner rectangle
/// includes one of the region's cells.  With `get_entities_at_positions`'s
/// contract, the query returns exactly those entities, once each.
pub proof fn lemma_query_characterization(g: SpatialHashGrid, region: Seq<CellPos>, e: u64)
    requires
        g.consistent(),
    ensures
        (exists|j: int| 0 <= j < region.len() && g.cell_set(#[trigger] region[j]).contains(e))
            <==> (g@.contains_key(e) && exists|j: int|
                0 <= j < region.len() && within(g@[e].0, g@[e].1, #[trigger] region[j])),
{
    if exists|j: int| 0 <= j < region.len() && g.cell_set(#[trigger] region[j]).contains(e) {
        let j = choose|j: int| 0 <= j < region.len()
            && g.cell_set(#[trigger] region[j]).contains(e);
        assert(g@.contains_key(e) && within(g@[e].0, g@[e].1, region[j]));
    }
    if g@.contains_key(e) && exists|j: int|
        0 <= j < region.len() && within(g@[e].0, g@[e].1, #[trigger] region[j]) {
        let j = choose|j: int| 0 <= j < region.len()
            && within(g@[e].0, g@[e].1, #[trigger] region[j]);
        assert(g.cell_set(region[j]).contains(e));
    }
}

/// Removing a handle is idempotent on the reverse map: removing it a second
/// time reads exactly as removing it once, and after one removal the handle
/// is no longer tracked, so `remove_entity`'s untracked branch (every cell
/// set unchanged) applies to the second call.
pub proof fn lemma_remove_idempotent(m: Map<u64, (CellPos, CellPos)>, e: u64)
    ensures
        m.remove(e).remove(e) == m.remove(e),
        !m.remove(e).contains_key(e),
{
    assert(m.remove(e).remove(e) =~= m.remove(e));
}

/// Two consistent grids with equal reverse maps agree on every cell's
/// entity set: the reverse map determines everything a query can observe.
pub proof fn lemma_view_determines_cells(g1: SpatialHashGrid, g2: SpatialHashGrid, c: CellPos)
    requires
        g1.consistent(),
        g2.consistent(),
        g1@ == g2@,
    ensures
        g1.cell_set(c) == g2.cell_set(c),
{
    assert forall|x: u64| g1.cell_set(c).contains(x) <==> g2.cell_set(c).contains(x) by {
    }
    assert(g1.cell_set(c) =~= g2.cell_set(c));
}

/// Inserting a handle with one rectangle and then again with another reads,
/// on the reverse map, exactly as inserting the second rectangle directly;
/// with `update_entity`'s view clause this gives the reverse-map half of the
/// equivalence between insert-then-update and a direct insert.
pub proof fn lemma_reinsert_view(
    m: Map<u64, (CellPos, CellPos)>,
    e: u64,
    s1: (CellPos, CellPos),
    s2: (CellPos, CellPos),
)
    ensures
        m.insert(e, s1).insert(e, s2) == m.insert(e, s2),
{
    assert(m.insert(e, s1).insert(e, s2) =~= m.insert(e, s2));
}

/// The forward-map half of the same equivalence, per cell: for a handle not
/// yet present anywhere, stamping rectangle one, clearing rectangle one and
/// stamping rectangle two (what `insert_entity` then `update_entity` do to
/// one cell's entity set) leaves exactly what stamping rectangle two
/// directly would.
pub proof fn lemma_update_equals_direct_insert(
    s0: Set<u64>,
    e: u64,
    lo1: CellPos,
    hi1: CellPos,
    lo2: CellPos,
    hi2: CellPos,
    c: CellPos,
)
    requires
        !s0.contains(e),
    ensures
        add_to_rect(
            remove_from_rect(add_to_rect(s0, lo1, hi1, e, c), lo1, hi1, e, c),
            lo2,
            hi2,
            e,
            c,
        ) == add_to_rect(s0, lo2, hi2, e, c),
{
    if within(lo1, hi1, c) {
        assert(s0.insert(e).remove(e) =~= s0);
    }
}

/// The corner cells of a valid bounding box are ordered: the minimum
/// corner's cell is never to the right of or above the maximum corner's, so
/// the corner rectangle always holds at least one cell.
pub proof fn lemma_span_ordered(g: SpatialHashGrid, sp: Spatial)
    requires
        g.geom_wf(),
        sp.dimension.valid(),
    ensures
        g.span_of(sp).0.col <= g.span_of(sp).1.col,
        g.span_of(sp).0.row <= g.span_of(sp).1.row,
{
    let lox = g.bounds_spec().0.x as int;
    let hix = g.bounds_spec().1.x as int;
    let loy = g.bounds_spec().0.y as int;
    let hiy = g.bounds_spec().1.y as int;
    let cols = g.dims_spec().0 as int;
    let rows = g.dims_spec().1 as int;
    lemma_cell_axis_in_range(sp.min_x(), lox, hix, cols);
    lemma_cell_axis_in_range(sp.max_x(), lox, hix, cols);
    lemma_cell_axis_monotone(sp.min_x(), sp.max_x(), lox, hix, cols);
    lemma_cell_axis_in_range(sp.min_y(), loy, hiy, rows);
    lemma_cell_axis_in_range(sp.max_y(), loy, hiy, rows);
    lemma_cell_axis_monotone(sp.min_y(), sp.max_y(), loy, hiy, rows);
}

/// Boundary saturation: a bounding box entirely outside the world bounds on
/// one side is indexed in that side's edge cells, not out of range and not
/// dropped.
pub proof fn lemma_boundary_saturation(g: SpatialHashGrid, sp: Spatial)
    requires
        g.geom_wf(),
        sp.dimension.valid(),
    ensures
        sp.max_x() <= g.bounds_spec().0.x
            ==> g.span_of(sp).0.col == 0 && g.span_of(sp).1.col == 0,
        sp.min_x() >= g.bounds_spec().1.x
            ==> g.span_of(sp).0.col == g.dims_spec().0 - 1
                && g.span_of(sp).1.col == g.dims_spec().0 - 1,
        sp.max_y() <= g.bounds_spec().0.y
            ==> g.span_of(sp).0.row == 0 && g.span_of(sp).1.row == 0,
        sp.min_y() >= g.bounds_spec().1.y
            ==> g.span_of(sp).0.row == g.dims_spec().1 - 1
                && g.span_of(sp).1.row == g.dims_spec().1 - 1,
{
    assert(sp.min_x() <= sp.max_x());
    assert(sp.min_y() <= sp.max_y());
}

} // verus!
