use vstd::prelude::*;

use crate::components::{Direction, Movable};
use crate::game::{keys_alive, GameWorld};
use crate::store::Entity;
use crate::world::{CanvasPosition, UIEvent, UIState, WorldTime};

verus! {

/// The step an event asks for, if it is a move.
pub open spec fn move_of(e: UIEvent) -> Option<Direction> {
    match e {
        UIEvent::Right => Some(Direction::Right),
        UIEvent::Left => Some(Direction::Left),
        UIEvent::Up => Some(Direction::Up),
        UIEvent::Down => Some(Direction::Down),
        _ => None,
    }
}

/// The step of the last move among `events`.
pub open spec fn last_move(events: Seq<UIEvent>) -> Option<Direction>
    decreases events.len(),
{
    if events.len() == 0 {
        None
    } else {
        match move_of(events.last()) {
            Some(d) => Some(d),
            None => last_move(events.drop_last()),
        }
    }
}

/// Where the pointer hovers after `events`, starting from `hover`.
pub open spec fn hover_after(events: Seq<UIEvent>, hover: Option<CanvasPosition>) -> Option<CanvasPosition>
    decreases events.len(),
{
    if events.len() == 0 {
        hover
    } else {
        match events.last() {
            UIEvent::MouseOver(c) => Some(c),
            UIEvent::MouseLeave => None,
            _ => hover_after(events.drop_last(), hover),
        }
    }
}

/// A live entity that the player steers.
pub open spec fn steered(w: &GameWorld, i: usize) -> bool {
    &&& w.entities.live(i)
    &&& w.player_controlled@.contains_key(i)
    &&& w.movable@.contains_key(i)
}

/// What draining the gathered input does to world `a`, giving `b`: the
/// events are used up, a batch holding a move advances the world tick by one,
/// the last move becomes the pending step of every steered entity, and pointer
/// events set or clear the hovered point.
pub open spec fn commands_handled(a: &GameWorld, b: &GameWorld) -> bool {
    &&& b.last_user_event.events@.len() == 0
    &&& b.time.tick == a.time.tick + if last_move(a.last_user_event.events@) is Some { 1int } else { 0int }
    &&& b.ui_state.mouse_over == hover_after(a.last_user_event.events@, a.ui_state.mouse_over)
    &&& forall|i: usize| #[trigger] b.movable@.contains_key(i) == a.movable@.contains_key(i)
    &&& forall|i: usize|
        #[trigger] a.movable@.contains_key(i) ==> b.movable@[i] == if steered(a, i) && last_move(
            a.last_user_event.events@,
        ) is Some {
            Movable { unprocessed_move: last_move(a.last_user_event.events@) }
        } else {
            a.movable@[i]
        }
    &&& b.entities == a.entities
    &&& b.parameters == a.parameters
    &&& b.lookup == a.lookup
    &&& b.world_position == a.world_position
    &&& b.player_controlled == a.player_controlled
    &&& b.armed == a.armed
    &&& b.damageable == a.damageable
    &&& b.level == a.level
    &&& b.sighted == a.sighted
    &&& b.collidable == a.collidable
    &&& b.opaque == a.opaque
    &&& b.pickupable == a.pickupable
    &&& b.climbable == a.climbable
    &&& b.inventoried == a.inventoried
    &&& b.ai_controlled == a.ai_controlled
    &&& b.factioned == a.factioned
    &&& b.render == a.render
    &&& b.describable == a.describable
    &&& b.parent == a.parent
}

/// The system that turns the input gathered since the last tick into intents.
pub struct PlayerCommandHandler;

impl PlayerCommandHandler {
    /// Drains the gathered events (see `commands_handled`): at most one world
    /// tick per drained batch.
    pub fn run(&self, world: &mut GameWorld)
        requires
            old(world).wf(),
            old(world).time.tick < u64::MAX,
        ensures
            final(world).wf(),
            commands_handled(old(world), final(world)),
    {
        let ghost events = world.last_user_event.events@;
        let mut latest: Option<Direction> = None;
        let mut hover = world.ui_state.mouse_over;
        let mut k: usize = 0;
        while k < world.last_user_event.events.len()
            invariant
                0 <= k <= events.len(),
                events == world.last_user_event.events@,
                *world == *old(world),
                latest == last_move(events.take(k as int)),
                hover == hover_after(events.take(k as int), old(world).ui_state.mouse_over),
            decreases events.len() - k,
        {
            let e = world.last_user_event.events[k];
            assert(events.take(k + 1).drop_last() =~= events.take(k as int));
            assert(events.take(k + 1).last() == e);
            match e {
                UIEvent::Right => {
                    latest = Some(Direction::Right);
                },
                UIEvent::Left => {
                    latest = Some(Direction::Left);
                },
                UIEvent::Up => {
                    latest = Some(Direction::Up);
                },
                UIEvent::Down => {
                    latest = Some(Direction::Down);
                },
                UIEvent::MouseOver(c) => {
                    hover = Some(c);
                },
                UIEvent::MouseLeave => {
                    hover = None;
                },
                UIEvent::MousePress(_) => {},
            }
            k = k + 1;
        }
        assert(events.take(events.len() as int) =~= events);
        world.last_user_event.events = Vec::new();
        world.ui_state = UIState { mouse_over: hover };
        if latest.is_some() {
            world.time = WorldTime { tick: world.time.tick + 1 };
        }
        assert(world.placed() =~= old(world).placed());
        let ghost mid = *world;
        if let Some(d) = latest {
            let n = world.entities.len();
            let mut i: usize = 0;
            while i < n
                invariant
                    0 <= i <= n,
                    n == world.entities.count(),
                    old(world).wf(),
                    world.wf(),
                    latest == Some(d),
                    latest == last_move(old(world).last_user_event.events@),
                    world.same_besides_movable(&mid),
                    mid.movable == old(world).movable,
                    mid.time.tick == old(world).time.tick + 1,
                    mid.last_user_event.events@.len() == 0,
                    mid.ui_state.mouse_over == hover_after(
                        old(world).last_user_event.events@,
                        old(world).ui_state.mouse_over,
                    ),
                    mid.entities == old(world).entities,
                    mid.world_position == old(world).world_position,
                    mid.lookup == old(world).lookup,
                    mid.player_controlled == old(world).player_controlled,
                    mid.parameters == old(world).parameters,
                    mid.sighted == old(world).sighted,
                    mid.armed == old(world).armed,
                    mid.damageable == old(world).damageable,
                    mid.level == old(world).level,
                    mid.collidable == old(world).collidable,
                    mid.opaque == old(world).opaque,
                    mid.pickupable == old(world).pickupable,
                    mid.climbable == old(world).climbable,
                    mid.inventoried == old(world).inventoried,
                    mid.ai_controlled == old(world).ai_controlled,
                    mid.factioned == old(world).factioned,
                    mid.render == old(world).render,
                    mid.describable == old(world).describable,
                    mid.parent == old(world).parent,
                    forall|j: usize| #[trigger] world.movable@.contains_key(j) == old(world).movable@.contains_key(j),
                    forall|j: usize|
                        #[trigger] old(world).movable@.contains_key(j) ==> world.movable@[j] == if j < i && steered(old(world), j) {
                            Movable { unprocessed_move: Some(d) }
                        } else {
                            old(world).movable@[j]
                        },
                decreases n - i,
            {
                let e = Entity { id: i };
                if world.entities.is_alive(e) && !world.entities.is_doomed(e)
                    && world.player_controlled.contains(e) && world.movable.contains(e) {
                    world.movable.insert(e, Movable { unprocessed_move: Some(d) });
                    assert(keys_alive(world.movable@, world.entities.alive()));
                    assert(world.placed() =~= old(world).placed());
                }
                i = i + 1;
            }
            proof {
                world.entities.lemma_bounds();
            }
        }
    }
}

} // verus!
