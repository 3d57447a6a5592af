use vstd::prelude::*;

use crate::ai::{ai_done, AI};
use crate::climbing::{climbing_done, Climbing};
use crate::combat::{combat_done, Combat};
use crate::game::GameWorld;
use crate::level_generation::{generation_done, LevelGeneration, GOLD_PIECES, MONSTERS};
use crate::looting::{looting_done, Looting};
use crate::movement::{movement_done, Movement};
use crate::perspective::{perspective_done, Perspective};
use crate::player_command::{commands_handled, last_move, PlayerCommandHandler};
use crate::random::Rng;

verus! {

/// One tick takes world `a` to `b` through `w1` ... `w8`: each system once,
/// in the fixed order, then the sweep.
pub open spec fn ran_in_order(
    a: &GameWorld,
    b: &GameWorld,
    ra: Rng,
    rb: Rng,
    ai_a: AI,
    ai_b: AI,
    w1: GameWorld,
    w2: GameWorld,
    w3: GameWorld,
    w4: GameWorld,
    w5: GameWorld,
    w6: GameWorld,
    w7: GameWorld,
    w8: GameWorld,
) -> bool {
    &&& generation_done(a, &w1, ra, rb)
    &&& commands_handled(&w1, &w2)
    &&& ai_done(&w2, &w3, ai_a, ai_b)
    &&& movement_done(&w3, &w4)
    &&& combat_done(&w4, &w5)
    &&& looting_done(&w5, &w6)
    &&& climbing_done(&w6, &w7)
    &&& perspective_done(&w7, &w8)
    &&& GameWorld::maintained(&w8, b)
}

/// Runs one tick: the systems in their fixed order (level generation, player
/// commands, AI, movement, combat, looting, climbing, sight), then the sweep of
/// the entities deleted during the tick.
pub fn tick(world: &mut GameWorld, rng: &mut Rng, ai: &mut AI)
    requires
        old(world).wf(),
        old(world).entities.count() + old(world).parameters.width * old(world).parameters.height
            + GOLD_PIECES + MONSTERS + 4 < usize::MAX,
        old(world).time.tick < u64::MAX,
    ensures
        final(world).wf(),
        final(world).entities.doomed() == Set::<usize>::empty(),
        final(world).last_user_event.events@.len() == 0,
        exists|w1: GameWorld, w2: GameWorld, w3: GameWorld, w4: GameWorld, w5: GameWorld, w6: GameWorld, w7: GameWorld, w8: GameWorld|
            #[trigger] ran_in_order(
                old(world),
                final(world),
                *old(rng),
                *final(rng),
                *old(ai),
                *final(ai),
                w1,
                w2,
                w3,
                w4,
                w5,
                w6,
                w7,
                w8,
            ),
        final(world).parameters == old(world).parameters,
        final(world).time.tick == old(world).time.tick + if last_move(old(world).last_user_event.events@) is Some { 1int } else { 0int },
{
    LevelGeneration.run(world, rng);
    let ghost w1 = *world;
    PlayerCommandHandler.run(world);
    let ghost w2 = *world;
    ai.run(world);
    let ghost w3 = *world;
    Movement.run(world);
    let ghost w4 = *world;
    Combat.run(world);
    let ghost w5 = *world;
    Looting.run(world);
    let ghost w6 = *world;
    Climbing.run(world);
    let ghost w7 = *world;
    Perspective.run(world);
    let ghost w8 = *world;
    world.maintain();
    assert(ran_in_order(old(world), world, *old(rng), *rng, *old(ai), *ai, w1, w2, w3, w4, w5, w6, w7, w8));
}

} // verus!
