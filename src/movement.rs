use vstd::prelude::*;

use crate::components::{Armed, Movable};
use crate::game::{keys_alive, GameWorld};
use crate::store::Entity;
use crate::world::{moved_spec, WorldPosition};

verus! {

/// The first collidable entity of `s`, which decides what a step onto the
/// cell holding `s` does.
pub open spec fn first_collidable(w: &GameWorld, s: Seq<Entity>) -> Option<Entity>
    decreases s.len(),
{
    if s.len() == 0 {
        None
    } else if w.collidable@.contains_key(s[0].id) {
        Some(s[0])
    } else {
        first_collidable(w, s.drop_first())
    }
}

/// Where entity `i` asks to step to, if it has a pending step.
pub open spec fn destination(w: &GameWorld, i: usize) -> Option<WorldPosition> {
    match w.movable@[i].unprocessed_move {
        Some(d) => Some(moved_spec(w.world_position@[i], d, w.parameters.width, w.parameters.height)),
        None => None,
    }
}

/// What one pending step of entity `i` does to the world `a`, giving `b`: the
/// step is always used up; a collidable and damageable occupant of the target
/// cell becomes the target of an armed mover; any collidable occupant blocks
/// the step; otherwise the mover takes it.
pub open spec fn step_outcome(a: &GameWorld, b: &GameWorld, i: usize) -> bool {
    &&& b.movable@ == a.movable@.insert(i, Movable { unprocessed_move: None })
    &&& b.entities == a.entities
    &&& match destination(a, i) {
        None => b.world_position@ == a.world_position@ && b.placed() == a.placed() && b.armed@
            == a.armed@,
        Some(np) => match first_collidable(a, a.lookup.occupants(np)) {
            None => b.world_position@ == a.world_position@.insert(i, np) && b.placed()
                == a.placed().insert(i, np) && b.armed@ == a.armed@,
            Some(o) => b.world_position@ == a.world_position@ && b.placed() == a.placed() && b.armed@
                == if a.damageable@.contains_key(o.id) && a.armed@.contains_key(i) {
                a.armed@.insert(i, Armed { damage: a.armed@[i].damage, targetting: Some(o) })
            } else {
                a.armed@
            },
        },
    }
}

/// The other components and resources stay as they are.
pub open spec fn movement_frame(a: &GameWorld, b: &GameWorld) -> bool {
    &&& b.collidable == a.collidable
    &&& b.opaque == a.opaque
    &&& b.pickupable == a.pickupable
    &&& b.climbable == a.climbable
    &&& b.inventoried == a.inventoried
    &&& b.ai_controlled == a.ai_controlled
    &&& b.player_controlled == a.player_controlled
    &&& b.damageable == a.damageable
    &&& b.factioned == a.factioned
    &&& b.level == a.level
    &&& b.render == a.render
    &&& b.describable == a.describable
    &&& b.sighted == a.sighted
    &&& b.parent == a.parent
    &&& b.parameters == a.parameters
    &&& b.time == a.time
    &&& b.last_user_event == a.last_user_event
    &&& b.ui_state == a.ui_state
}

/// Entity `i` of `w` has a step to carry out: it is live, movable and on the grid.
pub open spec fn mover(w: &GameWorld, i: usize) -> bool {
    &&& w.entities.live(i)
    &&& w.movable@.contains_key(i)
    &&& w.world_position@.contains_key(i)
}

/// The turn of entity `i` takes world `a` to `b`: a mover carries out its
/// step, anything else leaves the world as it is.
pub open spec fn movement_turn(a: &GameWorld, b: &GameWorld, i: usize) -> bool {
    if mover(a, i) {
        step_outcome(a, b, i) && movement_frame(a, b)
    } else {
        *b == *a
    }
}

/// `ws` runs from `a` to `b` through one turn per entity id, in order.
pub open spec fn movement_trace(a: &GameWorld, b: &GameWorld, ws: Seq<GameWorld>) -> bool {
    &&& ws.len() == a.entities.count() + 1
    &&& ws[0] == *a
    &&& ws.last() == *b
    &&& forall|i: int| 0 <= i < a.entities.count() ==> #[trigger] movement_turn(&ws[i], &ws[i + 1], i as usize)
}

/// What one movement pass does to world `a`, giving `b`.
pub open spec fn movement_done(a: &GameWorld, b: &GameWorld) -> bool {
    &&& exists|ws: Seq<GameWorld>| #[trigger] movement_trace(a, b, ws)
    &&& b.entities == a.entities
    &&& movement_frame(a, b)
    &&& forall|i: usize| #[trigger] b.movable@.contains_key(i) == a.movable@.contains_key(i)
    &&& forall|i: usize| #[trigger] b.world_position@.contains_key(i) == a.world_position@.contains_key(i)
    &&& forall|i: usize| #[trigger] b.armed@.contains_key(i) == a.armed@.contains_key(i)
    &&& forall|i: usize|
        #[trigger] a.movable@.contains_key(i) && a.entities.live(i) && a.world_position@.contains_key(i)
            ==> b.movable@[i].unprocessed_move is None
    &&& forall|i: usize|
        #[trigger] a.world_position@.contains_key(i) ==> b.world_position@[i] == a.world_position@[i] || (
        a.movable@.contains_key(i) && destination(a, i) == Some(b.world_position@[i]))
}

/// The system that carries out pending steps.
pub struct Movement;

impl Movement {
    /// Carries out the pending step of one live, movable, placed entity.
    pub fn apply_movement(&self, world: &mut GameWorld, entity: Entity)
        requires
            old(world).wf(),
            old(world).entities.live(entity.id),
            old(world).movable@.contains_key(entity.id),
            old(world).world_position@.contains_key(entity.id),
        ensures
            final(world).wf(),
            step_outcome(old(world), final(world), entity.id),
            movement_frame(old(world), final(world)),
    {
        proof {
            world.entities.lemma_bounds();
        }
        let m = *world.movable.get(entity).unwrap();
        world.movable.insert(entity, Movable { unprocessed_move: None });
        assert(world.placed() =~= old(world).placed());
        assert(keys_alive(world.movable@, world.entities.alive()));
        assert(world.wf());
        let direction = match m.unprocessed_move {
            Some(d) => d,
            None => {
                return ;
            },
        };
        let pos = *world.world_position.get(entity).unwrap();
        let np = pos.moved(direction, world.parameters.width, world.parameters.height);
        let occupants = world.lookup.entities_at(np);
        let ghost occ = occupants@;
        let ghost mid = *world;
        assert(occ.skip(0) =~= occ);
        let mut k: usize = 0;
        while k < occupants.len()
            invariant
                0 <= k <= occ.len(),
                occ == occupants@,
                first_collidable(old(world), occ) == first_collidable(old(world), occ.skip(k as int)),
                world.collidable == old(world).collidable,
                *world == mid,
                mid.wf(),
                entity.id < usize::MAX,
                occ == old(world).lookup.occupants(np),
                destination(old(world), entity.id) == Some(np),
                mid.movable@ == old(world).movable@.insert(entity.id, Movable { unprocessed_move: None }),
                mid.placed() == old(world).placed(),
                mid.world_position == old(world).world_position,
                mid.armed == old(world).armed,
                mid.entities == old(world).entities,
                mid.lookup == old(world).lookup,
                movement_frame(old(world), &mid),
            decreases occ.len() - k,
        {
            let o = occupants[k];
            assert(occ.skip(k as int)[0] == o);
            assert(occ.skip(k as int).drop_first() =~= occ.skip(k + 1));
            if world.collidable.contains(o) {
                if world.damageable.contains(o) {
                    if let Some(a) = world.armed.get(entity) {
                        let armed = Armed { damage: a.damage, targetting: Some(o) };
                        world.armed.insert(entity, armed);
                    }
                }
                assert(world.placed() =~= old(world).placed());
                return ;
            }
            k = k + 1;
        }
        assert(occ.skip(k as int) =~= Seq::<Entity>::empty());
        world.place(entity, np);
    }

    /// Carries out, in order of entity id, the pending step of every live
    /// movable entity on the grid. Each step is used up whatever its outcome.
    pub fn run(&self, world: &mut GameWorld)
        requires
            old(world).wf(),
        ensures
            final(world).wf(),
            movement_done(old(world), final(world)),
    {
        let n = world.entities.len();
        let ghost mut ws: Seq<GameWorld> = seq![*world];
        let mut i: usize = 0;
        while i < n
            invariant
                0 <= i <= n,
                n == world.entities.count(),
                world.wf(),
                world.entities == old(world).entities,
                movement_frame(old(world), world),
                ws.len() == i + 1,
                ws[0] == *old(world),
                ws.last() == *world,
                forall|k: int| 0 <= k < i ==> #[trigger] movement_turn(&ws[k], &ws[k + 1], k as usize),
                forall|k: usize| #[trigger]
                    world.movable@.contains_key(k) == old(world).movable@.contains_key(k),
                forall|k: usize| #[trigger]
                    world.world_position@.contains_key(k) == old(world).world_position@.contains_key(k),
                forall|k: usize| #[trigger]
                    world.armed@.contains_key(k) == old(world).armed@.contains_key(k),
                forall|k: usize|
                    i <= k && #[trigger] world.movable@.contains_key(k) ==> world.movable@[k]
                        == old(world).movable@[k],
                forall|k: usize|
                    i <= k && #[trigger] world.world_position@.contains_key(k)
                        ==> world.world_position@[k] == old(world).world_position@[k],
                forall|k: usize|
                    k < i && #[trigger] old(world).movable@.contains_key(k) && old(world).entities.live(k)
                        && old(world).world_position@.contains_key(k)
                        ==> world.movable@[k].unprocessed_move is None,
                forall|k: usize|
                    #[trigger] old(world).world_position@.contains_key(k)
                        ==> world.world_position@[k] == old(world).world_position@[k] || (
                    old(world).movable@.contains_key(k) && destination(old(world), k) == Some(
                        world.world_position@[k],
                    )),
            decreases n - i,
        {
            let e = Entity { id: i };
            let ghost before = *world;
            if world.entities.is_alive(e) && !world.entities.is_doomed(e) && world.movable.contains(e)
                && world.world_position.contains(e) {
                self.apply_movement(world, e);
                proof {
                    assert(destination(&before, i) == destination(old(world), i));
                }
            }
            proof {
                let prev = ws;
                ws = ws.push(*world);
                assert(movement_turn(&ws[i as int], &ws[i + 1], i));
                assert forall|k: int| 0 <= k < i + 1 implies #[trigger] movement_turn(&ws[k], &ws[k + 1], k as usize) by {
                    if k < i {
                        assert(ws[k] == prev[k] && ws[k + 1] == prev[k + 1]);
                    }
                }
            }
            i = i + 1;
        }
        proof {
            world.entities.lemma_bounds();
            assert(movement_trace(old(world), world, ws));
        }
    }
}

} // verus!
