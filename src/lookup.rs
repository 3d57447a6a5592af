use vstd::arithmetic::div_mod::lemma_fundamental_div_mod_converse;
use vstd::prelude::*;

use crate::store::Entity;
use crate::world::{in_bounds, WorldPosition};

verus! {

/// Slot of a cell in a grid of the given width.
pub open spec fn cell_index(p: WorldPosition, width: u64) -> int {
    p.y * width + p.x
}

/// The cell whose slot is `c`.
pub open spec fn cell_at(c: int, width: u64) -> WorldPosition {
    WorldPosition { x: (c % (width as int)) as u64, y: (c / (width as int)) as u64 }
}

/// A cell on the grid has a slot, and the slot gives the cell back.
pub proof fn lemma_cell_index(p: WorldPosition, width: u64, height: u64)
    requires
        in_bounds(p, width, height),
    ensures
        0 <= cell_index(p, width) < width * height,
        cell_at(cell_index(p, width), width) == p,
{
    assert(0 <= p.y * width) by (nonlinear_arith);
    assert(p.y * width + p.x < width * height) by (nonlinear_arith)
        requires
            p.x < width,
            p.y < height,
    ;
    lemma_fundamental_div_mod_converse(cell_index(p, width), width as int, p.y as int, p.x as int);
}

/// Every slot is the slot of a cell on the grid.
pub proof fn lemma_cell_at(c: int, width: u64, height: u64)
    requires
        width >= 1,
        0 <= c < width * height,
    ensures
        cell_index(cell_at(c, width), width) == c,
        in_bounds(cell_at(c, width), width, height),
{
    let w = width as int;
    assert(c == (c / w) * w + c % w) by (nonlinear_arith)
        requires
            w >= 1,
    ;
    assert(0 <= c % w < w) by (nonlinear_arith)
        requires
            w >= 1,
    ;
    assert(0 <= c / w < height) by (nonlinear_arith)
        requires
            w >= 1,
            0 <= c < w * height,
    ;
}

/// Spatial index: for each cell the entities on it, and for each entity its cell.
pub struct WorldPositionLookupTable {
    width: u64,
    height: u64,
    world_position_entities: Vec<Vec<Entity>>,
    entity_world_position: Vec<Option<WorldPosition>>,
}

impl WorldPositionLookupTable {
    pub closed spec fn width(&self) -> u64 {
        self.width
    }

    pub closed spec fn height(&self) -> u64 {
        self.height
    }

    /// The cell recorded for each entity.
    pub closed spec fn positions(&self) -> Map<usize, WorldPosition> {
        Map::new(
            |i: usize|
                i < self.entity_world_position@.len() && self.entity_world_position@[i as int] is Some,
            |i: usize| self.entity_world_position@[i as int]->0,
        )
    }

    /// The entities on a cell; none off the grid.
    pub closed spec fn occupants(&self, p: WorldPosition) -> Seq<Entity> {
        if in_bounds(p, self.width, self.height) {
            self.world_position_entities@[cell_index(p, self.width)]@
        } else {
            Seq::empty()
        }
    }

    pub closed spec fn wf(&self) -> bool {
        &&& self.width >= 1
        &&& self.height >= 1
        &&& self.width * self.height <= usize::MAX
        &&& self.world_position_entities@.len() == self.width * self.height
        &&& forall|i: int|
            0 <= i < self.entity_world_position@.len() && self.entity_world_position@[i] is Some
                ==> {
                let p = self.entity_world_position@[i]->0;
                &&& in_bounds(p, self.width, self.height)
                &&& self.world_position_entities@[cell_index(p, self.width)]@.contains(
                    Entity { id: i as usize },
                )
            }
        &&& forall|c: int, k: int|
            0 <= c < self.world_position_entities@.len() && 0 <= k
                < self.world_position_entities@[c]@.len() ==> {
                let e = #[trigger] self.world_position_entities@[c]@[k];
                &&& e.id < self.entity_world_position@.len()
                &&& self.entity_world_position@[e.id as int] == Some(cell_at(c, self.width))
            }
        &&& forall|c: int, k: int, l: int|
            0 <= c < self.world_position_entities@.len() && 0 <= k < l
                < self.world_position_entities@[c]@.len()
                ==> self.world_position_entities@[c]@[k] != self.world_position_entities@[c]@[l]
    }

    /// Each recorded entity is on exactly the cell recorded for it: it is
    /// among the occupants of a cell if and only if that cell is its position.
    pub proof fn lemma_consistent(&self, e: Entity, p: WorldPosition)
        requires
            self.wf(),
        ensures
            (self.positions().contains_key(e.id) && self.positions()[e.id] == p) <==> self.occupants(
                p,
            ).contains(e),
            self.positions().contains_key(e.id) ==> in_bounds(
                self.positions()[e.id],
                self.width(),
                self.height(),
            ),
    {
        if self.positions().contains_key(e.id) && self.positions()[e.id] == p {
            lemma_cell_index(p, self.width, self.height);
        }
        if self.occupants(p).contains(e) {
            let k = choose|k: int| 0 <= k < self.occupants(p).len() && self.occupants(p)[k] == e;
            lemma_cell_index(p, self.width, self.height);
            let c = cell_index(p, self.width);
            assert(self.world_position_entities@[c]@[k] == e);
        }
    }

    /// An empty index over a `width` by `height` grid.
    pub fn new(width: u64, height: u64) -> (t: Self)
        requires
            width >= 1,
            height >= 1,
            width * height <= usize::MAX,
        ensures
            t.wf(),
            t.width() == width,
            t.height() == height,
            t.positions() == Map::<usize, WorldPosition>::empty(),
    {
        let n: usize = (width * height) as usize;
        let mut cells: Vec<Vec<Entity>> = Vec::new();
        while cells.len() < n
            invariant
                cells@.len() <= n,
                forall|c: int| 0 <= c < cells@.len() ==> cells@[c]@.len() == 0,
            decreases n - cells.len(),
        {
            cells.push(Vec::new());
        }
        let t = WorldPositionLookupTable {
            width,
            height,
            world_position_entities: cells,
            entity_world_position: Vec::new(),
        };
        assert(t.positions() =~= Map::<usize, WorldPosition>::empty());
        t
    }

    /// Forgets every entity.
    pub fn clear(&mut self)
        requires
            old(self).wf(),
        ensures
            final(self).wf(),
            final(self).width() == old(self).width(),
            final(self).height() == old(self).height(),
            final(self).positions() == Map::<usize, WorldPosition>::empty(),
    {
        *self = WorldPositionLookupTable::new(self.width, self.height);
    }

    /// The cell recorded for `e`.
    pub fn position_of(&self, e: Entity) -> (r: Option<WorldPosition>)
        ensures
            r == (if self.positions().contains_key(e.id) { Some(self.positions()[e.id]) } else { None }),
    {
        if e.id < self.entity_world_position.len() {
            self.entity_world_position[e.id]
        } else {
            None
        }
    }

    /// The entities on cell `p`, each once.
    pub fn entities_at(&self, p: WorldPosition) -> (r: &Vec<Entity>)
        requires
            self.wf(),
            in_bounds(p, self.width(), self.height()),
        ensures
            r@ == self.occupants(p),
            r@.no_duplicates(),
            forall|k: int|
                0 <= k < r@.len() ==> self.positions().contains_key(#[trigger] r@[k].id)
                    && self.positions()[r@[k].id] == p,
            forall|i: usize|
                self.positions().contains_key(i) && self.positions()[i] == p ==> r@.contains(
                    Entity { id: i },
                ),
    {
        proof {
            lemma_cell_index(p, self.width, self.height);
            assert forall|i: usize|
                self.positions().contains_key(i) && self.positions()[i] == p implies self.occupants(
                    p,
                ).contains(Entity { id: i }) by {
                self.lemma_consistent(Entity { id: i }, p);
            }
        }
        let c: usize = (p.y * self.width + p.x) as usize;
        &self.world_position_entities[c]
    }

    /// Drops `entity` from the index.
    pub fn remove(&mut self, entity: Entity)
        requires
            old(self).wf(),
        ensures
            final(self).wf(),
            final(self).width() == old(self).width(),
            final(self).height() == old(self).height(),
            final(self).positions() == old(self).positions().remove(entity.id),
    {
        if entity.id >= self.entity_world_position.len() {
            assert(self.positions() =~= old(self).positions().remove(entity.id));
            return ;
        }
        match self.entity_world_position[entity.id] {
            None => {
                assert(self.positions() =~= old(self).positions().remove(entity.id));
            },
            Some(p) => {
                proof {
                    lemma_cell_index(p, self.width, self.height);
                }
                let c: usize = (p.y * self.width + p.x) as usize;
                let ghost bucket = self.world_position_entities@[c as int]@;
                let mut k: usize = 0;
                while k < self.world_position_entities[c].len()
                    invariant
                        self == old(self),
                        c < self.world_position_entities@.len(),
                        bucket == self.world_position_entities@[c as int]@,
                        k <= bucket.len(),
                        forall|j: int| 0 <= j < k ==> bucket[j] != entity,
                    ensures
                        k <= bucket.len(),
                        forall|j: int| 0 <= j < k ==> bucket[j] != entity,
                        k < bucket.len() ==> bucket[k as int] == entity,
                    decreases bucket.len() - k,
                {
                    if self.world_position_entities[c][k] == entity {
                        break;
                    }
                    k = k + 1;
                }
                assert(bucket.contains(entity));
                assert(k < bucket.len()) by {
                    if k >= bucket.len() {
                        let j = choose|j: int| 0 <= j < bucket.len() && bucket[j] == entity;
                        assert(bucket[j] != entity);
                    }
                }
                let ghost old_cells = self.world_position_entities@;
                self.world_position_entities[c].remove(k);
                self.entity_world_position.set(entity.id, None);
                proof {
                    let cells = self.world_position_entities@;
                    let ewp = self.entity_world_position@;
                    assert(cells[c as int]@ == bucket.remove(k as int));
                    assert forall|i: int| 0 <= i < ewp.len() && ewp[i] is Some implies {
                        let q = ewp[i]->0;
                        &&& in_bounds(q, self.width, self.height)
                        &&& cells[cell_index(q, self.width)]@.contains(Entity { id: i as usize })
                    } by {
                        let q = ewp[i]->0;
                        assert(i != entity.id);
                        lemma_cell_index(q, self.width, self.height);
                        let oc = old_cells[cell_index(q, self.width)]@;
                        assert(oc.contains(Entity { id: i as usize }));
                        if cell_index(q, self.width) == c as int {
                            assert(oc == bucket);
                            assert(oc[k as int] == entity);
                            let j = choose|j: int| 0 <= j < oc.len() && oc[j] == Entity { id: i as usize };
                            if j < k {
                                assert(cells[c as int]@[j] == Entity { id: i as usize });
                            } else {
                                assert(j != k);
                                assert(cells[c as int]@[j - 1] == Entity { id: i as usize });
                            }
                        }
                    }
                    assert forall|cc: int, kk: int|
                        0 <= cc < cells.len() && 0 <= kk < cells[cc]@.len() implies {
                        let e = #[trigger] cells[cc]@[kk];
                        &&& e.id < ewp.len()
                        &&& ewp[e.id as int] == Some(cell_at(cc, self.width))
                    } by {
                        let ewp0 = old(self).entity_world_position@;
                        assert(ewp == ewp0.update(entity.id as int, None));
                        if cc == c as int {
                            assert(old_cells[cc]@ == bucket);
                            if kk < k {
                                assert(cells[cc]@[kk] == old_cells[cc]@[kk]);
                                assert(old_cells[cc]@[kk] != entity);
                            } else {
                                assert(cells[cc]@[kk] == old_cells[cc]@[kk + 1]);
                                assert(old_cells[cc]@[kk + 1] != old_cells[cc]@[k as int]);
                            }
                        } else {
                            assert(cells[cc]@[kk] == old_cells[cc]@[kk]);
                            if old_cells[cc]@[kk] == entity {
                                lemma_cell_index(p, self.width, self.height);
                                lemma_cell_at(cc, self.width, self.height);
                                assert(ewp0[entity.id as int] == Some(cell_at(cc, self.width)));
                            }
                        }
                    }
                    assert forall|cc: int, kk: int, ll: int|
                        0 <= cc < cells.len() && 0 <= kk < ll < cells[cc]@.len() implies cells[cc]@[kk]
                        != cells[cc]@[ll] by {
                        if cc == c as int {
                            let ok = if kk < k { kk } else { kk + 1 };
                            let ol = if ll < k { ll } else { ll + 1 };
                            assert(cells[cc]@[kk] == old_cells[cc]@[ok]);
                            assert(cells[cc]@[ll] == old_cells[cc]@[ol]);
                        }
                    }
                    assert(self.positions() =~= old(self).positions().remove(entity.id));
                }
            },
        }
    }

    /// Records `entity` on cell `p`, moving it off the cell it was on.
    /// Recording it again on the cell it is on changes nothing.
    pub fn update(&mut self, entity: Entity, new_world_position: WorldPosition)
        requires
            old(self).wf(),
            in_bounds(new_world_position, old(self).width(), old(self).height()),
            entity.id < usize::MAX,
        ensures
            final(self).wf(),
            final(self).width() == old(self).width(),
            final(self).height() == old(self).height(),
            final(self).positions() == old(self).positions().insert(entity.id, new_world_position),
            old(self).positions().contains_key(entity.id) && old(self).positions()[entity.id]
                == new_world_position ==> *final(self) == *old(self),
    {
        if entity.id < self.entity_world_position.len() {
            if let Some(p) = self.entity_world_position[entity.id] {
                if p == new_world_position {
                    assert(self.positions() =~= old(self).positions().insert(
                        entity.id,
                        new_world_position,
                    ));
                    return ;
                }
            }
        }
        self.remove(entity);
        self.attach(entity, new_world_position);
        assert(self.positions() =~= old(self).positions().insert(entity.id, new_world_position));
    }

    fn attach(&mut self, entity: Entity, p: WorldPosition)
        requires
            old(self).wf(),
            in_bounds(p, old(self).width(), old(self).height()),
            !old(self).positions().contains_key(entity.id),
            entity.id < usize::MAX,
        ensures
            final(self).wf(),
            final(self).width() == old(self).width(),
            final(self).height() == old(self).height(),
            final(self).positions() == old(self).positions().insert(entity.id, p),
    {
        while self.entity_world_position.len() <= entity.id
            invariant
                self.wf(),
                self.width == old(self).width,
                self.height == old(self).height,
                self.world_position_entities == old(self).world_position_entities,
                self.positions() == old(self).positions(),
                entity.id < usize::MAX,
            decreases entity.id + 1 - self.entity_world_position.len(),
        {
            let ghost before = self.entity_world_position@;
            self.entity_world_position.push(None);
            assert(self.positions() =~= old(self).positions());
            assert forall|c: int, k: int|
                0 <= c < self.world_position_entities@.len() && 0 <= k
                    < self.world_position_entities@[c]@.len() implies {
                let e = #[trigger] self.world_position_entities@[c]@[k];
                &&& e.id < self.entity_world_position@.len()
                &&& self.entity_world_position@[e.id as int] == Some(cell_at(c, self.width))
            } by {
                let e = self.world_position_entities@[c]@[k];
                assert(before[e.id as int] == Some(cell_at(c, self.width)));
            }
        }
        proof {
            lemma_cell_index(p, self.width, self.height);
        }
        let c: usize = (p.y * self.width + p.x) as usize;
        let ghost mid = *self;
        self.world_position_entities[c].push(entity);
        self.entity_world_position.set(entity.id, Some(p));
        proof {
            let cells = self.world_position_entities@;
            let ewp = self.entity_world_position@;
            let old_cells = mid.world_position_entities@;
            assert(mid.entity_world_position@[entity.id as int] is None);
            assert forall|i: int| 0 <= i < ewp.len() && ewp[i] is Some implies {
                let q = ewp[i]->0;
                &&& in_bounds(q, self.width, self.height)
                &&& cells[cell_index(q, self.width)]@.contains(Entity { id: i as usize })
            } by {
                let q = ewp[i]->0;
                if i == entity.id {
                    assert(cells[c as int]@[cells[c as int]@.len() - 1] == entity);
                } else {
                    lemma_cell_index(q, self.width, self.height);
                    let oc = old_cells[cell_index(q, self.width)]@;
                    let j = choose|j: int| 0 <= j < oc.len() && oc[j] == Entity { id: i as usize };
                    assert(cells[cell_index(q, self.width)]@[j] == Entity { id: i as usize });
                }
            }
            assert forall|cc: int, kk: int|
                0 <= cc < cells.len() && 0 <= kk < cells[cc]@.len() implies {
                let e = #[trigger] cells[cc]@[kk];
                &&& e.id < ewp.len()
                &&& ewp[e.id as int] == Some(cell_at(cc, self.width))
            } by {
                if cc == c as int && kk == old_cells[cc]@.len() {
                } else {
                    assert(cells[cc]@[kk] == old_cells[cc]@[kk]);
                    let e = old_cells[cc]@[kk];
                    assert(mid.entity_world_position@[e.id as int] is Some);
                }
            }
            assert forall|cc: int, kk: int, ll: int|
                0 <= cc < cells.len() && 0 <= kk < ll < cells[cc]@.len() implies cells[cc]@[kk]
                != cells[cc]@[ll] by {
                if cc == c as int && ll == old_cells[cc]@.len() {
                    let e = old_cells[cc]@[kk];
                    assert(mid.entity_world_position@[e.id as int] is Some);
                } else {
                    assert(cells[cc]@[kk] == old_cells[cc]@[kk]);
                }
            }
            assert(self.positions() =~= old(self).positions().insert(entity.id, p));
        }
    }
}

} // verus!
