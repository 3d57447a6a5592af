use vstd::prelude::*;

use crate::components::{
    AIControlled, Armed, Climbable, Collidable, Damageable, Describable, Factioned, Inventoried, Level,
    Movable, Opaque, Parent, Pickupable, PlayerControlled, Render, Sighted,
};
use crate::lookup::WorldPositionLookupTable;
use crate::store::{Entities, Entity, Storage};
use crate::world::{in_bounds, LastUserEvent, UIState, WorldParameters, WorldPosition, WorldTime};

verus! {

/// The ids of `gone` below `bound`.
pub open spec fn below(gone: Set<usize>, bound: int) -> Set<usize> {
    gone.filter(|i: usize| i < bound)
}

proof fn lemma_sweep_step<T>(m: Map<usize, T>, gone: Set<usize>, i: usize)
    ensures
        gone.contains(i) ==> m.remove_keys(below(gone, i as int)).remove(i) == m.remove_keys(
            below(gone, i + 1),
        ),
        !gone.contains(i) ==> m.remove_keys(below(gone, i as int)) == m.remove_keys(
            below(gone, i + 1),
        ),
{
    assert(gone.contains(i) ==> below(gone, i + 1) =~= below(gone, i as int).insert(i));
    assert(!gone.contains(i) ==> below(gone, i + 1) =~= below(gone, i as int));
    assert(gone.contains(i) ==> m.remove_keys(below(gone, i as int)).remove(i) =~= m.remove_keys(
        below(gone, i + 1),
    ));
}

/// `a` and `b` agree on every id below `n`.
pub open spec fn agrees_below<T>(a: Map<usize, T>, b: Map<usize, T>, n: nat) -> bool {
    forall|i: usize|
        i < n ==> (#[trigger] a.contains_key(i) == b.contains_key(i)) && (a.contains_key(i)
            ==> a[i] == b[i])
}

/// Only entities of `alive` hold a component of `m`.
pub open spec fn keys_alive<T>(m: Map<usize, T>, alive: Set<usize>) -> bool {
    forall|i: usize| #[trigger] m.contains_key(i) ==> alive.contains(i)
}

/// Every entity, its components, and the world's shared resources.
pub struct GameWorld {
    pub entities: Entities,
    pub world_position: Storage<WorldPosition>,
    pub movable: Storage<Movable>,
    pub collidable: Storage<Collidable>,
    pub opaque: Storage<Opaque>,
    pub pickupable: Storage<Pickupable>,
    pub climbable: Storage<Climbable>,
    pub inventoried: Storage<Inventoried>,
    pub ai_controlled: Storage<AIControlled>,
    pub player_controlled: Storage<PlayerControlled>,
    pub damageable: Storage<Damageable>,
    pub armed: Storage<Armed>,
    pub factioned: Storage<Factioned>,
    pub level: Storage<Level>,
    pub render: Storage<Render>,
    pub describable: Storage<Describable>,
    pub sighted: Storage<Sighted>,
    pub parent: Storage<Parent>,
    pub parameters: WorldParameters,
    pub lookup: WorldPositionLookupTable,
    pub time: WorldTime,
    pub last_user_event: LastUserEvent,
    pub ui_state: UIState,
}

impl GameWorld {
    /// The positions of the entities that are alive and not marked for deletion:
    /// what the spatial index must hold.
    pub open spec fn placed(&self) -> Map<usize, WorldPosition> {
        Map::new(
            |i: usize| self.world_position@.contains_key(i) && self.entities.live(i),
            |i: usize| self.world_position@[i],
        )
    }

    /// `self` only adds entities to `other`: everything about the first `n`
    /// entities, and every shared resource, is as in `other`.
    pub open spec fn extends(&self, other: &GameWorld, n: nat) -> bool {
        &&& forall|i: usize|
            i < n ==> (#[trigger] self.entities.alive().contains(i) == other.entities.alive().contains(
                i,
            )) && (self.entities.doomed().contains(i) == other.entities.doomed().contains(i))
        &&& agrees_below(self.world_position@, other.world_position@, n)
        &&& agrees_below(self.movable@, other.movable@, n)
        &&& agrees_below(self.collidable@, other.collidable@, n)
        &&& agrees_below(self.opaque@, other.opaque@, n)
        &&& agrees_below(self.pickupable@, other.pickupable@, n)
        &&& agrees_below(self.climbable@, other.climbable@, n)
        &&& agrees_below(self.inventoried@, other.inventoried@, n)
        &&& agrees_below(self.ai_controlled@, other.ai_controlled@, n)
        &&& agrees_below(self.player_controlled@, other.player_controlled@, n)
        &&& agrees_below(self.damageable@, other.damageable@, n)
        &&& agrees_below(self.armed@, other.armed@, n)
        &&& agrees_below(self.factioned@, other.factioned@, n)
        &&& agrees_below(self.level@, other.level@, n)
        &&& agrees_below(self.render@, other.render@, n)
        &&& agrees_below(self.describable@, other.describable@, n)
        &&& agrees_below(self.sighted@, other.sighted@, n)
        &&& agrees_below(self.parent@, other.parent@, n)
        &&& agrees_below(self.placed(), other.placed(), n)
        &&& self.parameters == other.parameters
        &&& self.time == other.time
        &&& self.last_user_event == other.last_user_event
        &&& self.ui_state == other.ui_state
    }

    /// Every component column and every resource but the entity allocator and
    /// the spatial index is as in `other`.
    pub open spec fn same_components(&self, other: &GameWorld) -> bool {
        &&& self.world_position == other.world_position
        &&& self.same_besides_position(other)
    }

    /// As `same_components`, but for the pending steps.
    pub open spec fn same_besides_movable(&self, other: &GameWorld) -> bool {
        &&& self.entities == other.entities
        &&& self.lookup == other.lookup
        &&& self.world_position == other.world_position
        &&& self.collidable == other.collidable
        &&& self.opaque == other.opaque
        &&& self.pickupable == other.pickupable
        &&& self.climbable == other.climbable
        &&& self.inventoried == other.inventoried
        &&& self.ai_controlled == other.ai_controlled
        &&& self.player_controlled == other.player_controlled
        &&& self.damageable == other.damageable
        &&& self.armed == other.armed
        &&& self.factioned == other.factioned
        &&& self.level == other.level
        &&& self.render == other.render
        &&& self.describable == other.describable
        &&& self.sighted == other.sighted
        &&& self.parent == other.parent
        &&& self.parameters == other.parameters
        &&& self.time == other.time
        &&& self.last_user_event == other.last_user_event
        &&& self.ui_state == other.ui_state
    }

    /// As `same_components`, but for what viewers see.
    pub open spec fn same_besides_sighted(&self, other: &GameWorld) -> bool {
        &&& self.entities == other.entities
        &&& self.lookup == other.lookup
        &&& self.world_position == other.world_position
        &&& self.movable == other.movable
        &&& self.collidable == other.collidable
        &&& self.opaque == other.opaque
        &&& self.pickupable == other.pickupable
        &&& self.climbable == other.climbable
        &&& self.inventoried == other.inventoried
        &&& self.ai_controlled == other.ai_controlled
        &&& self.player_controlled == other.player_controlled
        &&& self.damageable == other.damageable
        &&& self.armed == other.armed
        &&& self.factioned == other.factioned
        &&& self.level == other.level
        &&& self.render == other.render
        &&& self.describable == other.describable
        &&& self.parent == other.parent
        &&& self.parameters == other.parameters
        &&& self.time == other.time
        &&& self.last_user_event == other.last_user_event
        &&& self.ui_state == other.ui_state
    }

    /// As `same_components`, but for the positions.
    pub open spec fn same_besides_position(&self, other: &GameWorld) -> bool {
        &&& self.movable == other.movable
        &&& self.collidable == other.collidable
        &&& self.opaque == other.opaque
        &&& self.pickupable == other.pickupable
        &&& self.climbable == other.climbable
        &&& self.inventoried == other.inventoried
        &&& self.ai_controlled == other.ai_controlled
        &&& self.player_controlled == other.player_controlled
        &&& self.damageable == other.damageable
        &&& self.armed == other.armed
        &&& self.factioned == other.factioned
        &&& self.level == other.level
        &&& self.render == other.render
        &&& self.describable == other.describable
        &&& self.sighted == other.sighted
        &&& self.parent == other.parent
        &&& self.parameters == other.parameters
        &&& self.time == other.time
        &&& self.last_user_event == other.last_user_event
        &&& self.ui_state == other.ui_state
    }

    /// Only alive entities hold components.
    pub open spec fn columns_bounded(&self) -> bool {
        let n = self.entities.alive();
        &&& keys_alive(self.world_position@, n)
        &&& keys_alive(self.movable@, n)
        &&& keys_alive(self.collidable@, n)
        &&& keys_alive(self.opaque@, n)
        &&& keys_alive(self.pickupable@, n)
        &&& keys_alive(self.climbable@, n)
        &&& keys_alive(self.inventoried@, n)
        &&& keys_alive(self.ai_controlled@, n)
        &&& keys_alive(self.player_controlled@, n)
        &&& keys_alive(self.damageable@, n)
        &&& keys_alive(self.armed@, n)
        &&& keys_alive(self.factioned@, n)
        &&& keys_alive(self.level@, n)
        &&& keys_alive(self.render@, n)
        &&& keys_alive(self.describable@, n)
        &&& keys_alive(self.sighted@, n)
        &&& keys_alive(self.parent@, n)
    }

    pub open spec fn wf(&self) -> bool {
        &&& self.entities.wf()
        &&& self.entities.count() < usize::MAX
        &&& self.parameters.valid()
        &&& self.lookup.wf()
        &&& self.lookup.width() == self.parameters.width
        &&& self.lookup.height() == self.parameters.height
        &&& forall|i: usize| #[trigger]
            self.world_position@.contains_key(i) ==> i < self.entities.count() && in_bounds(
                self.world_position@[i],
                self.parameters.width,
                self.parameters.height,
            )
        &&& self.lookup.positions() == self.placed()
        &&& self.columns_bounded()
    }

    /// An empty world on a `width` by `height` grid.
    pub fn new(width: u64, height: u64) -> (w: GameWorld)
        requires
            width >= 1,
            height >= 1,
            width * height <= usize::MAX,
        ensures
            w.wf(),
            w.entities.count() == 0,
            w.parameters == (WorldParameters { width, height }),
            w.time.tick == 0,
            w.last_user_event.events@.len() == 0,
            w.ui_state.mouse_over is None,
    {
        let w = GameWorld {
            entities: Entities::new(),
            world_position: Storage::new(),
            movable: Storage::new(),
            collidable: Storage::new(),
            opaque: Storage::new(),
            pickupable: Storage::new(),
            climbable: Storage::new(),
            inventoried: Storage::new(),
            ai_controlled: Storage::new(),
            player_controlled: Storage::new(),
            damageable: Storage::new(),
            armed: Storage::new(),
            factioned: Storage::new(),
            level: Storage::new(),
            render: Storage::new(),
            describable: Storage::new(),
            sighted: Storage::new(),
            parent: Storage::new(),
            parameters: WorldParameters { width, height },
            lookup: WorldPositionLookupTable::new(width, height),
            time: WorldTime { tick: 0 },
            last_user_event: LastUserEvent { events: Vec::new() },
            ui_state: UIState { mouse_over: None },
        };
        assert(w.placed() =~= Map::<usize, WorldPosition>::empty());
        w
    }

    /// A fresh entity with no components.
    pub fn create_entity(&mut self) -> (e: Entity)
        requires
            old(self).wf(),
            old(self).entities.count() + 1 < usize::MAX,
        ensures
            final(self).wf(),
            e.id == old(self).entities.count(),
            final(self).entities.count() == old(self).entities.count() + 1,
            final(self).entities.alive() == old(self).entities.alive().insert(e.id),
            final(self).entities.doomed() == old(self).entities.doomed(),
            final(self).placed() == old(self).placed(),
            final(self).same_components(old(self)),
            final(self).lookup == old(self).lookup,
    {
        proof {
            self.entities.lemma_bounds();
        }
        let e = self.entities.create();
        proof {
            assert(!self.world_position@.contains_key(e.id));
            assert(self.placed() =~= old(self).placed());
        }
        e
    }

    /// Puts a live entity on cell `p`, keeping the spatial index in step.
    pub fn place(&mut self, e: Entity, p: WorldPosition)
        requires
            old(self).wf(),
            old(self).entities.live(e.id),
            in_bounds(p, old(self).parameters.width, old(self).parameters.height),
        ensures
            final(self).wf(),
            final(self).world_position@ == old(self).world_position@.insert(e.id, p),
            final(self).placed() == old(self).placed().insert(e.id, p),
            final(self).entities == old(self).entities,
            final(self).same_besides_position(old(self)),
    {
        proof {
            self.entities.lemma_bounds();
        }
        self.world_position.insert(e, p);
        self.lookup.update(e, p);
        assert(self.placed() =~= old(self).placed().insert(e.id, p));
    }

    /// Takes an entity off the grid.
    pub fn unplace(&mut self, e: Entity)
        requires
            old(self).wf(),
        ensures
            final(self).wf(),
            final(self).world_position@ == old(self).world_position@.remove(e.id),
            final(self).placed() == old(self).placed().remove(e.id),
            final(self).entities == old(self).entities,
            final(self).same_besides_position(old(self)),
    {
        self.world_position.remove(e);
        self.lookup.remove(e);
        assert(self.placed() =~= old(self).placed().remove(e.id));
    }

    /// Marks a live entity for deletion and takes it out of the spatial index;
    /// its components stay readable until `maintain`.
    pub fn delete_entity(&mut self, e: Entity)
        requires
            old(self).wf(),
            old(self).entities.live(e.id),
        ensures
            final(self).wf(),
            final(self).entities.count() == old(self).entities.count(),
            final(self).entities.alive() == old(self).entities.alive(),
            final(self).entities.doomed() == old(self).entities.doomed().insert(e.id),
            final(self).placed() == old(self).placed().remove(e.id),
            final(self).same_components(old(self)),
    {
        self.entities.delete(e);
        self.lookup.remove(e);
        assert(self.placed() =~= old(self).placed().remove(e.id));
    }

    /// What the sweep does to world `a`, giving `b`: the entities marked for
    /// deletion stop being alive and lose every component.
    pub open spec fn maintained(a: &GameWorld, b: &GameWorld) -> bool {
        &&& b.entities.count() == a.entities.count()
        &&& b.entities.alive() == a.entities.alive().difference( a.entities.doomed(), )
        &&& b.entities.doomed() == Set::<usize>::empty()
        &&& b.placed() == a.placed()
        &&& b.world_position@ == a.world_position@.remove_keys( a.entities.doomed(), )
        &&& b.damageable@ == a.damageable@.remove_keys(a.entities.doomed())
        &&& b.armed@ == a.armed@.remove_keys(a.entities.doomed())
        &&& b.movable@ == a.movable@.remove_keys(a.entities.doomed())
        &&& b.parent@ == a.parent@.remove_keys(a.entities.doomed())
        &&& b.level@ == a.level@.remove_keys(a.entities.doomed())
        &&& b.sighted@ == a.sighted@.remove_keys(a.entities.doomed())
        &&& b.parameters == a.parameters
        &&& b.lookup == a.lookup
        &&& b.time == a.time
        &&& b.last_user_event == a.last_user_event
        &&& b.ui_state == a.ui_state
    }

    /// Sweeps the entities marked for deletion: they stop being alive and
    /// lose all their components.
    pub fn maintain(&mut self)
        requires
            old(self).wf(),
        ensures
            final(self).wf(),
            GameWorld::maintained(old(self), final(self)),
    {
        let n = self.entities.len();
        let ghost gone = old(self).entities.doomed();
        let mut i: usize = 0;
        while i < n
            invariant
                0 <= i <= n,
                n == old(self).entities.count(),
                self.entities.wf(),
                self.entities.count() == n,
                self.entities.alive() == old(self).entities.alive().difference(below(gone, i as int)),
                self.entities.doomed() == gone.difference(below(gone, i as int)),
                self.world_position@ == old(self).world_position@.remove_keys(below(gone, i as int)),
                self.movable@ == old(self).movable@.remove_keys(below(gone, i as int)),
                self.collidable@ == old(self).collidable@.remove_keys(below(gone, i as int)),
                self.opaque@ == old(self).opaque@.remove_keys(below(gone, i as int)),
                self.pickupable@ == old(self).pickupable@.remove_keys(below(gone, i as int)),
                self.climbable@ == old(self).climbable@.remove_keys(below(gone, i as int)),
                self.inventoried@ == old(self).inventoried@.remove_keys(below(gone, i as int)),
                self.ai_controlled@ == old(self).ai_controlled@.remove_keys(below(gone, i as int)),
                self.player_controlled@ == old(self).player_controlled@.remove_keys(
                    below(gone, i as int),
                ),
                self.damageable@ == old(self).damageable@.remove_keys(below(gone, i as int)),
                self.armed@ == old(self).armed@.remove_keys(below(gone, i as int)),
                self.factioned@ == old(self).factioned@.remove_keys(below(gone, i as int)),
                self.level@ == old(self).level@.remove_keys(below(gone, i as int)),
                self.render@ == old(self).render@.remove_keys(below(gone, i as int)),
                self.describable@ == old(self).describable@.remove_keys(below(gone, i as int)),
                self.sighted@ == old(self).sighted@.remove_keys(below(gone, i as int)),
                self.parent@ == old(self).parent@.remove_keys(below(gone, i as int)),
                self.parameters == old(self).parameters,
                self.lookup == old(self).lookup,
                self.time == old(self).time,
                self.last_user_event == old(self).last_user_event,
                self.ui_state == old(self).ui_state,
            decreases n - i,
        {
            let e = Entity { id: i };
            proof {
                lemma_sweep_step(old(self).world_position@, gone, i);
                lemma_sweep_step(old(self).movable@, gone, i);
                lemma_sweep_step(old(self).collidable@, gone, i);
                lemma_sweep_step(old(self).opaque@, gone, i);
                lemma_sweep_step(old(self).pickupable@, gone, i);
                lemma_sweep_step(old(self).climbable@, gone, i);
                lemma_sweep_step(old(self).inventoried@, gone, i);
                lemma_sweep_step(old(self).ai_controlled@, gone, i);
                lemma_sweep_step(old(self).player_controlled@, gone, i);
                lemma_sweep_step(old(self).damageable@, gone, i);
                lemma_sweep_step(old(self).armed@, gone, i);
                lemma_sweep_step(old(self).factioned@, gone, i);
                lemma_sweep_step(old(self).level@, gone, i);
                lemma_sweep_step(old(self).render@, gone, i);
                lemma_sweep_step(old(self).describable@, gone, i);
                lemma_sweep_step(old(self).sighted@, gone, i);
                lemma_sweep_step(old(self).parent@, gone, i);
                if gone.contains(i) {
                    assert(below(gone, i + 1) =~= below(gone, i as int).insert(i));
                } else {
                    assert(below(gone, i + 1) =~= below(gone, i as int));
                }
            }
            if self.entities.is_doomed(e) {
                self.world_position.remove(e);
                self.movable.remove(e);
                self.collidable.remove(e);
                self.opaque.remove(e);
                self.pickupable.remove(e);
                self.climbable.remove(e);
                self.inventoried.remove(e);
                self.ai_controlled.remove(e);
                self.player_controlled.remove(e);
                self.damageable.remove(e);
                self.armed.remove(e);
                self.factioned.remove(e);
                self.level.remove(e);
                self.render.remove(e);
                self.describable.remove(e);
                self.sighted.remove(e);
                self.parent.remove(e);
                self.entities.sweep(e);
                assert(self.entities.alive() =~= old(self).entities.alive().difference(
                    below(gone, i + 1),
                ));
                assert(self.entities.doomed() =~= gone.difference(below(gone, i + 1)));
            }
            i = i + 1;
        }
        proof {
            old(self).entities.lemma_bounds();
            assert(below(gone, n as int) =~= gone);
            assert(self.entities.doomed() =~= Set::<usize>::empty());
            assert(self.placed() =~= old(self).placed());
        }
    }
}

} // verus!
