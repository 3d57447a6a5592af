use vstd::prelude::*;

use crate::components::{Direction, Faction, Movable};
use crate::game::{keys_alive, GameWorld};
use crate::store::Entity;
use crate::world::WorldPosition;

verus! {

/// The cardinal direction of the offset `(dx, dy)` (`y` grows downwards):
/// the quarter of the circle that holds its bearing, with the boundaries at
/// 45 and 135 degrees either side of the `x` axis; each quarter holds its
/// clockwise boundary. No offset at all counts as `Right`.
pub open spec fn bearing_of(dx: int, dy: int) -> Direction {
    if -dx <= dy && dy < dx {
        Direction::Right
    } else if dy > 0 && -dy < dx && dx <= dy {
        Direction::Down
    } else if dy < 0 && dy <= dx && dx < -dy {
        Direction::Up
    } else if dx == 0 && dy == 0 {
        Direction::Right
    } else {
        Direction::Left
    }
}

/// The direction from `from` towards `to`.
pub fn bearing(from: WorldPosition, to: WorldPosition) -> (d: Direction)
    ensures
        d == bearing_of(to.x - from.x, to.y - from.y),
{
    let dx: i128 = to.x as i128 - from.x as i128;
    let dy: i128 = to.y as i128 - from.y as i128;
    if -dx <= dy && dy < dx {
        Direction::Right
    } else if dy > 0 && -dy < dx && dx <= dy {
        Direction::Down
    } else if dy < 0 && dy <= dx && dx < -dy {
        Direction::Up
    } else if dx == 0 && dy == 0 {
        Direction::Right
    } else {
        Direction::Left
    }
}

/// A live entity of the player's faction on the grid.
pub open spec fn player_at(w: &GameWorld, i: usize) -> bool {
    &&& w.entities.live(i)
    &&& w.factioned@.contains_key(i)
    &&& w.factioned@[i].faction == Faction::Player
    &&& w.world_position@.contains_key(i)
}

/// The player the enemies head for: the one with the least id.
pub open spec fn first_player(w: &GameWorld, i: usize) -> bool {
    player_at(w, i) && forall|k: usize| k < i ==> !player_at(w, k)
}

/// A live enemy, moved by the AI, on the grid.
pub open spec fn hunter(w: &GameWorld, i: usize) -> bool {
    &&& w.entities.live(i)
    &&& w.factioned@.contains_key(i)
    &&& w.factioned@[i].faction == Faction::Enemy
    &&& w.ai_controlled@.contains_key(i)
    &&& w.movable@.contains_key(i)
    &&& w.world_position@.contains_key(i)
}

/// The world after every hunter of `a` is sent towards cell `target`.
pub open spec fn hunted(a: &GameWorld, b: &GameWorld, target: WorldPosition) -> bool {
    &&& b.entities == a.entities
    &&& b.world_position == a.world_position
    &&& b.lookup == a.lookup
    &&& b.time == a.time
    &&& b.parameters == a.parameters
    &&& b.factioned == a.factioned
    &&& b.ai_controlled == a.ai_controlled
    &&& forall|i: usize| #[trigger] b.movable@.contains_key(i) == a.movable@.contains_key(i)
    &&& forall|i: usize|
        #[trigger] a.movable@.contains_key(i) ==> b.movable@[i] == if hunter(a, i) {
            Movable {
                unprocessed_move: Some(
                    bearing_of(target.x - a.world_position@[i].x, target.y - a.world_position@[i].y),
                ),
            }
        } else {
            a.movable@[i]
        }
}

/// What one AI pass does to world `a` and AI state `ai_a`, giving `b` and `ai_b`.
pub open spec fn ai_done(a: &GameWorld, b: &GameWorld, ai_a: AI, ai_b: AI) -> bool {
    &&& b.same_besides_movable(a)
    &&& ai_a.last_tick >= a.time.tick ==> *b == *a && ai_b == ai_a
    &&& ai_a.last_tick < a.time.tick ==> ai_b.last_tick == a.time.tick
    &&& ai_a.last_tick < a.time.tick && (forall|i: usize| !player_at(a, i)) ==> *b == *a
    &&& forall|p: usize|
        ai_a.last_tick < a.time.tick && #[trigger] first_player(a, p) ==> hunted(a, b, a.world_position@[p])
}

/// The system that steers enemies; it acts once per world tick.
pub struct AI {
    pub last_tick: u64,
}

impl AI {
    /// Once per world tick: every live enemy that the AI moves is given a
    /// step in the direction of the first player (no path finding).
    pub fn run(&mut self, world: &mut GameWorld)
        requires
            old(world).wf(),
        ensures
            final(world).wf(),
            ai_done(old(world), final(world), *old(self), *final(self)),
    {
        if self.last_tick >= world.time.tick {
            return ;
        }
        let n = world.entities.len();
        let mut target: Option<WorldPosition> = None;
        let mut i: usize = 0;
        while i < n
            invariant_except_break
                target is None,
            invariant
                0 <= i <= n,
                n == world.entities.count(),
                *world == *old(world),
                forall|k: usize| k < i ==> !player_at(old(world), k),
            ensures
                *world == *old(world),
                target is None ==> forall|k: usize| k < n ==> !player_at(old(world), k),
                target is Some ==> exists|p: usize| #[trigger]
                    first_player(old(world), p) && target == Some(old(world).world_position@[p]),
            decreases n - i,
        {
            let e = Entity { id: i };
            if world.entities.is_alive(e) && !world.entities.is_doomed(e) {
                if let Some(f) = world.factioned.get(e) {
                    if f.faction == Faction::Player {
                        if let Some(p) = world.world_position.get(e) {
                            assert(first_player(old(world), i));
                            target = Some(*p);
                            break;
                        }
                    }
                }
            }
            i = i + 1;
        }
        proof {
            world.entities.lemma_bounds();
        }
        if let Some(t) = target {
            let ghost p = choose|p: usize| #[trigger]
                first_player(old(world), p) && target == Some(old(world).world_position@[p]);
            let mut j: usize = 0;
            while j < n
                invariant
                    0 <= j <= n,
                    n == world.entities.count(),
                    old(world).wf(),
                    world.wf(),
                    world.same_besides_movable(old(world)),
                    world.entities == old(world).entities,
                    world.lookup == old(world).lookup,
                    forall|i: usize| #[trigger] world.movable@.contains_key(i) == old(world).movable@.contains_key(i),
                    forall|i: usize|
                        #[trigger] old(world).movable@.contains_key(i) ==> world.movable@[i] == if i < j && hunter(old(world), i) {
                            Movable {
                                unprocessed_move: Some(
                                    bearing_of(t.x - old(world).world_position@[i].x, t.y - old(world).world_position@[i].y),
                                ),
                            }
                        } else {
                            old(world).movable@[i]
                        },
                decreases n - j,
            {
                let e = Entity { id: j };
                if world.entities.is_alive(e) && !world.entities.is_doomed(e) && world.ai_controlled.contains(e)
                    && world.movable.contains(e) {
                    if let Some(f) = world.factioned.get(e) {
                        if f.faction == Faction::Enemy {
                            if let Some(pos) = world.world_position.get(e) {
                                let d = bearing(*pos, t);
                                world.movable.insert(e, Movable { unprocessed_move: Some(d) });
                                assert(keys_alive(world.movable@, world.entities.alive()));
                                assert(world.placed() =~= old(world).placed());
                            }
                        }
                    }
                }
                j = j + 1;
            }
            proof {
                assert forall|pp: usize| #[trigger] first_player(old(world), pp) implies pp == p by {
                    if pp < p {
                        assert(!player_at(old(world), pp));
                    } else if p < pp {
                        assert(!player_at(old(world), p));
                    }
                }
            }
        }
        self.last_tick = world.time.tick;
    }
}

} // verus!
