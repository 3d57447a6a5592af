use vstd::prelude::*;

use crate::components::{marked, Level, Sighted};
use crate::game::{keys_alive, GameWorld};
use crate::store::Entity;
use crate::world::WorldPosition;

verus! {

/// A live player-controlled entity on the grid.
pub open spec fn player_on_grid(w: &GameWorld, i: usize) -> bool {
    &&& w.entities.live(i)
    &&& w.player_controlled@.contains_key(i)
    &&& w.placed().contains_key(i)
}

/// Some player stands on a climbable entity's cell.
pub open spec fn on_stairs(w: &GameWorld) -> bool {
    exists|i: usize, c: usize|
        #[trigger] player_on_grid(w, i) && #[trigger] w.climbable@.contains_key(c) && w.placed().contains_key(c)
            && w.placed()[c] == w.placed()[i]
}

/// The level being played: the live level entity with the least id.
pub open spec fn current_level(w: &GameWorld, l: usize) -> bool {
    &&& w.entities.live(l)
    &&& w.level@.contains_key(l)
    &&& forall|k: usize| k < l ==> !(w.entities.live(k) && #[trigger] w.level@.contains_key(k))
}

/// A live entity owned by level `l`.
pub open spec fn owned_by(w: &GameWorld, i: usize, l: usize) -> bool {
    &&& w.entities.live(i)
    &&& w.parent@.contains_key(i)
    &&& w.parent@[i].entity.id == l
}

fn player_on_stairs(world: &GameWorld) -> (r: bool)
    requires
        world.wf(),
    ensures
        r == on_stairs(world),
{
    let n = world.entities.len();
    let mut i: usize = 0;
    while i < n
        invariant
            0 <= i <= n,
            n == world.entities.count(),
            world.wf(),
            forall|k: usize, c: usize|
                k < i && #[trigger] player_on_grid(world, k) && #[trigger] world.climbable@.contains_key(c)
                    && world.placed().contains_key(c) ==> world.placed()[c] != world.placed()[k],
        decreases n - i,
    {
        let e = Entity { id: i };
        if world.entities.is_alive(e) && !world.entities.is_doomed(e) && world.player_controlled.contains(e) {
            if let Some(p) = world.lookup.position_of(e) {
                proof {
                    world.lookup.lemma_consistent(e, p);
                }
                let occupants = world.lookup.entities_at(p);
                let mut k: usize = 0;
                while k < occupants.len()
                    invariant
                        0 <= k <= occupants@.len(),
                        world.wf(),
                        world.placed().contains_key(i),
                        world.placed()[i] == p,
                        world.entities.live(i),
                        world.player_controlled@.contains_key(i),
                        forall|j: int| 0 <= j < occupants@.len() ==> world.placed().contains_key(#[trigger] occupants@[j].id)
                            && world.placed()[occupants@[j].id] == p,
                        forall|t: usize| world.placed().contains_key(t) && world.placed()[t] == p ==> occupants@.contains(Entity { id: t }),
                        forall|j: int| 0 <= j < k ==> !world.climbable@.contains_key(#[trigger] occupants@[j].id),
                    decreases occupants@.len() - k,
                {
                    if world.climbable.contains(occupants[k]) {
                        assert(player_on_grid(world, i));
                        assert(world.climbable@.contains_key(occupants@[k as int].id));
                        return true;
                    }
                    k = k + 1;
                }
                proof {
                    assert forall|c: usize| #[trigger] world.climbable@.contains_key(c) && world.placed().contains_key(c)
                        implies world.placed()[c] != world.placed()[i] by {
                        if world.placed()[c] == p {
                            let j = choose|j: int| 0 <= j < occupants@.len() && occupants@[j] == Entity { id: c };
                            assert(!world.climbable@.contains_key(occupants@[j].id));
                        }
                    }
                }
            }
        }
        i = i + 1;
    }
    proof {
        world.entities.lemma_bounds();
        assert forall|k: usize, c: usize|
            #[trigger] player_on_grid(world, k) && #[trigger] world.climbable@.contains_key(c)
                && world.placed().contains_key(c) implies world.placed()[c] != world.placed()[k] by {
            assert(k < n);
        }
    }
    false
}

/// The live player-controlled entities.
pub open spec fn players_of(w: &GameWorld) -> Set<usize> {
    Set::new(|i: usize| w.entities.live(i) && w.player_controlled@.contains_key(i))
}

/// What leaving level `l` tears down: the level and every live entity it owns.
pub open spec fn teardown(w: &GameWorld, l: usize) -> Set<usize> {
    Set::new(|i: usize| i == l || owned_by(w, i, l))
}

/// What one pass of the climbing system does to world `a`, giving `b`.
pub open spec fn climbing_done(a: &GameWorld, b: &GameWorld) -> bool {
    &&& b.parameters == a.parameters
    &&& b.last_user_event == a.last_user_event
    &&& b.time == a.time
    &&& !on_stairs(a) ==> *b == *a
    &&& on_stairs(a) ==> forall|i: usize|
        #[trigger] players_of(a).contains(i) ==> !b.world_position@.contains_key(i) && (b.sighted@.contains_key(i)
            == a.sighted@.contains_key(i)) && (b.sighted@.contains_key(i) ==> marked(b.sighted@[i].seen@)
            == Set::<usize>::empty() && marked(b.sighted@[i].seen_recently@) == Set::<usize>::empty())
    &&& on_stairs(a) && (forall|l: usize| !current_level(a, l)) ==> {
        &&& b.entities == a.entities
        &&& b.placed() == a.placed().remove_keys(players_of(a))
        &&& b.level == a.level
        &&& b.parent == a.parent
    }
    &&& forall|l: usize| on_stairs(a) && #[trigger] current_level(a, l) ==> {
        &&& b.entities.count() == a.entities.count() + 1
        &&& b.entities.alive() == a.entities.alive().insert(a.entities.count() as usize)
        &&& b.entities.doomed() == a.entities.doomed().union(teardown(a, l))
        &&& b.placed() == a.placed().remove_keys(players_of(a).union(teardown(a, l)))
        &&& b.level@ == a.level@.insert(a.entities.count() as usize, Level { generated: false })
        &&& b.parent@ == if a.parent@.contains_key(l) {
            a.parent@.insert(a.entities.count() as usize, a.parent@[l])
        } else {
            a.parent@
        }
    }
}

/// When every entity on the grid is a player or belongs to the level left
/// behind (as in a generated level), the spatial index is empty after climbing.
pub proof fn lemma_climbing_empties_index(a: &GameWorld, b: &GameWorld, l: usize)
    requires
        climbing_done(a, b),
        on_stairs(a),
        current_level(a, l),
        forall|i: usize| #[trigger] a.placed().contains_key(i) ==> players_of(a).union(teardown(a, l)).contains(i),
    ensures
        b.placed() == Map::<usize, WorldPosition>::empty(),
{
    assert(b.placed() =~= Map::<usize, WorldPosition>::empty());
}

/// The system that takes the player down the stairs.
pub struct Climbing;

impl Climbing {
    /// When a player stands on the stairs: the current level and every live
    /// entity it owns are deleted (and leave the spatial index), each live
    /// player leaves the grid and forgets what it saw but stays alive, and a
    /// new level, not generated yet, is created under the old level's owner.
    /// Otherwise nothing changes. Entities neither owned by the level nor
    /// players keep their places, so the spatial index holds no entity of the
    /// old level afterwards.
    pub fn run(&self, world: &mut GameWorld)
        requires
            old(world).wf(),
            old(world).entities.count() + 2 < usize::MAX,
        ensures
            final(world).wf(),
            climbing_done(old(world), final(world)),
    {
        if !player_on_stairs(world) {
            return ;
        }
        let n = world.entities.len();
        let mut found: Option<Entity> = None;
        let mut i: usize = 0;
        while i < n
            invariant_except_break
                found is None,
            invariant
                0 <= i <= n,
                n == world.entities.count(),
                *world == *old(world),
                forall|k: usize| k < i ==> !(world.entities.live(k) && #[trigger] world.level@.contains_key(k)),
            ensures
                *world == *old(world),
                found is None ==> forall|k: usize| k < n ==> !(world.entities.live(k) && #[trigger] world.level@.contains_key(k)),
                found is Some ==> current_level(old(world), found->0.id),
            decreases n - i,
        {
            let e = Entity { id: i };
            if world.entities.is_alive(e) && !world.entities.is_doomed(e) && world.level.contains(e) {
                found = Some(e);
                break;
            }
            i = i + 1;
        }
        proof {
            world.entities.lemma_bounds();
        }
        // players leave the grid and forget what they saw
        let mut j: usize = 0;
        while j < n
            invariant
                0 <= j <= n,
                n == old(world).entities.count(),
                world.wf(),
                world.entities == old(world).entities,
                world.parameters == old(world).parameters,
                world.last_user_event == old(world).last_user_event,
                world.time == old(world).time,
                world.level == old(world).level,
                world.parent == old(world).parent,
                world.player_controlled == old(world).player_controlled,
                world.climbable == old(world).climbable,
                forall|k: usize| #[trigger] world.sighted@.contains_key(k) == old(world).sighted@.contains_key(k),
                forall|k: usize|
                    k < j && #[trigger] old(world).player_controlled@.contains_key(k) && old(world).entities.live(k)
                        ==> !world.placed().contains_key(k) && !world.world_position@.contains_key(k) && (
                    world.sighted@.contains_key(k) ==> marked(world.sighted@[k].seen@) == Set::<usize>::empty()
                        && marked(world.sighted@[k].seen_recently@) == Set::<usize>::empty()),
                world.placed() == old(world).placed().remove_keys(
                    Set::new(|i: usize| i < j && players_of(old(world)).contains(i)),
                ),
            decreases n - j,
        {
            let e = Entity { id: j };
            if world.entities.is_alive(e) && !world.entities.is_doomed(e) && world.player_controlled.contains(e) {
                if world.sighted.contains(e) {
                    world.sighted.insert(e, Sighted::new());
                    assert(keys_alive(world.sighted@, world.entities.alive()));
                }
                world.unplace(e);
            }
            assert(world.placed() =~= old(world).placed().remove_keys(
                Set::new(|i: usize| i < j + 1 && players_of(old(world)).contains(i)),
            ));
            j = j + 1;
        }
        proof {
            old(world).entities.lemma_bounds();
            assert(Set::new(|i: usize| i < n && players_of(old(world)).contains(i)) =~= players_of(old(world)));
        }
        let ghost after_players = *world;
        if let Some(level) = found {
            let fresh = world.create_entity();
            world.level.insert(fresh, Level { generated: false });
            assert(keys_alive(world.level@, world.entities.alive()));
            if let Some(owner) = world.parent.get(level) {
                let owner = *owner;
                world.parent.insert(fresh, owner);
                assert(keys_alive(world.parent@, world.entities.alive()));
            }
            assert(world.placed() =~= after_players.placed());
            let ghost parents = world.parent@;
            world.delete_entity(level);
            proof {
                assert(world.entities.doomed() =~= old(world).entities.doomed().union(
                    Set::new(|x: usize| x == level.id || (x < 0 && owned_by(old(world), x, level.id))),
                ));
                assert(world.placed() =~= old(world).placed().remove_keys(players_of(old(world)).union(
                    Set::new(|x: usize| x == level.id || (x < 0 && owned_by(old(world), x, level.id))),
                )));
            }
            let mut k: usize = 0;
            while k < n
                invariant
                    0 <= k <= n,
                    n == old(world).entities.count(),
                    world.wf(),
                    level.id < n,
                    world.parameters == old(world).parameters,
                    world.last_user_event == old(world).last_user_event,
                    world.time == old(world).time,
                    world.entities.count() == n + 1,
                    world.level@ == old(world).level@.insert(n as usize, Level { generated: false }),
                    world.parent@ == parents,
                    parents == if old(world).parent@.contains_key(level.id) {
                        old(world).parent@.insert(n as usize, old(world).parent@[level.id])
                    } else {
                        old(world).parent@
                    },
                    current_level(old(world), level.id),
                    world.entities.alive() == old(world).entities.alive().insert(n as usize),
                    world.entities.doomed() == old(world).entities.doomed().union(
                        Set::new(|x: usize| x == level.id || (x < k && owned_by(old(world), x, level.id))),
                    ),
                    world.placed() == old(world).placed().remove_keys(players_of(old(world)).union(
                        Set::new(|x: usize| x == level.id || (x < k && owned_by(old(world), x, level.id))),
                    )),
                    world.player_controlled == old(world).player_controlled,
                    world.entities.doomed().contains(level.id),
                    !world.placed().contains_key(level.id),
                    forall|x: usize| k <= x && x != level.id && #[trigger] old(world).entities.live(x) ==> world.entities.live(x),
                    forall|x: usize| #[trigger] world.sighted@.contains_key(x) == old(world).sighted@.contains_key(x),
                    forall|x: usize| #[trigger] world.sighted@.contains_key(x) ==> world.sighted@[x] == after_players.sighted@[x],
                    forall|x: usize| #[trigger] world.placed().contains_key(x) ==> after_players.placed().contains_key(x),
                    forall|x: usize| #[trigger] world.world_position@.contains_key(x) == after_players.world_position@.contains_key(x),
                    forall|x: usize| #[trigger] world.entities.doomed().contains(x) ==> x < n + 1,
                    forall|x: usize| old(world).entities.doomed().contains(x) ==> #[trigger] world.entities.doomed().contains(x),
                    forall|x: usize| x < k && #[trigger] owned_by(old(world), x, level.id) ==> world.entities.doomed().contains(x)
                        && !world.placed().contains_key(x),
                decreases n - k,
            {
                let e = Entity { id: k };
                if world.entities.is_alive(e) && !world.entities.is_doomed(e) {
                    if let Some(p) = world.parent.get(e) {
                        if p.entity.id == level.id {
                            world.delete_entity(e);
                        }
                    }
                }
                proof {
                    assert(world.entities.doomed() =~= old(world).entities.doomed().union(
                        Set::new(|x: usize| x == level.id || (x < k + 1 && owned_by(old(world), x, level.id))),
                    ));
                    assert(world.placed() =~= old(world).placed().remove_keys(players_of(old(world)).union(
                        Set::new(|x: usize| x == level.id || (x < k + 1 && owned_by(old(world), x, level.id))),
                    )));
                }
                k = k + 1;
            }
            proof {
                assert(Set::new(|x: usize| x == level.id || (x < n && owned_by(old(world), x, level.id)))
                    =~= teardown(old(world), level.id));
                assert forall|l: usize| #[trigger] current_level(old(world), l) implies l == level.id by {
                    if l < level.id {
                    } else if level.id < l {
                    }
                }
            }
        } else {
            assert(world.placed() =~= old(world).placed().remove_keys(players_of(old(world))));
        }
    }
}

} // verus!
