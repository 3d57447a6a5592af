use vstd::prelude::*;

use crate::components::{Armed, Damageable};
use crate::game::{keys_alive, GameWorld};
use crate::store::Entity;

verus! {

/// Health left after taking `damage`: it stops at zero.
pub open spec fn damaged(health: u32, damage: nat) -> u32 {
    if health > damage {
        (health - damage) as u32
    } else {
        0
    }
}

/// Health after one hit of `damage`; it never wraps below zero.
pub fn apply_damage(health: u32, damage: u32) -> (r: u32)
    ensures
        r == damaged(health, damage as nat),
{
    health.saturating_sub(damage)
}

/// Entity `k` strikes entity `t` this tick: it is alive (even if marked for
/// deletion), armed, and targets `t`, which is not itself.
pub open spec fn strikes(w: &GameWorld, k: usize, t: usize) -> bool {
    &&& w.entities.alive().contains(k)
    &&& w.armed@.contains_key(k)
    &&& w.armed@[k].targetting == Some(Entity { id: t })
    &&& k != t
}

/// Total damage that the entities with id below `n` deal to `t`.
pub open spec fn incoming(w: &GameWorld, t: usize, n: nat) -> nat
    decreases n,
{
    if n == 0 {
        0
    } else {
        incoming(w, t, (n - 1) as nat) + if strikes(w, (n - 1) as usize, t) {
            w.armed@[(n - 1) as usize].damage as nat
        } else {
            0
        }
    }
}

/// Some entity with id below `n` strikes `t`.
pub open spec fn struck(w: &GameWorld, t: usize, n: nat) -> bool {
    exists|k: usize| k < n && #[trigger] strikes(w, k, t)
}

/// `t` dies in a pass over the attackers below `n`: it was live, damageable,
/// struck, and its health ran out.
pub open spec fn killed(w: &GameWorld, t: usize, n: nat) -> bool {
    &&& w.entities.live(t)
    &&& w.damageable@.contains_key(t)
    &&& struck(w, t, n)
    &&& damaged(w.damageable@[t].health, incoming(w, t, n)) == 0
}

/// The state of a combat pass over the attackers below `n`, starting from `a`.
pub open spec fn resolved(a: &GameWorld, b: &GameWorld, n: nat) -> bool {
    &&& b.entities.count() == a.entities.count()
    &&& b.entities.alive() == a.entities.alive()
    &&& b.entities.doomed() == a.entities.doomed().union(Set::new(|t: usize| killed(a, t, n)))
    &&& b.placed() == a.placed().remove_keys(Set::new(|t: usize| killed(a, t, n)))
    &&& forall|t: usize| #[trigger]
        b.damageable@.contains_key(t) == a.damageable@.contains_key(t)
    &&& forall|t: usize| #[trigger]
        a.damageable@.contains_key(t) ==> b.damageable@[t] == Damageable {
            health: damaged(a.damageable@[t].health, incoming(a, t, n)),
            max_health: a.damageable@[t].max_health,
        }
    &&& forall|k: usize| #[trigger] b.armed@.contains_key(k) == a.armed@.contains_key(k)
    &&& forall|k: usize| #[trigger]
        a.armed@.contains_key(k) ==> b.armed@[k].damage == a.armed@[k].damage
    &&& forall|k: usize| #[trigger]
        a.armed@.contains_key(k) ==> b.armed@[k].targetting == if k < n && a.entities.alive().contains(
            k,
        ) {
            None
        } else {
            a.armed@[k].targetting
        }
}

/// Everything that combat does not touch.
pub open spec fn combat_frame(a: &GameWorld, b: &GameWorld) -> bool {
    &&& b.world_position == a.world_position
    &&& b.movable == a.movable
    &&& b.collidable == a.collidable
    &&& b.opaque == a.opaque
    &&& b.pickupable == a.pickupable
    &&& b.climbable == a.climbable
    &&& b.inventoried == a.inventoried
    &&& b.ai_controlled == a.ai_controlled
    &&& b.player_controlled == a.player_controlled
    &&& b.factioned == a.factioned
    &&& b.level == a.level
    &&& b.render == a.render
    &&& b.describable == a.describable
    &&& b.sighted == a.sighted
    &&& b.parent == a.parent
    &&& b.parameters == a.parameters
    &&& b.time == a.time
    &&& b.last_user_event == a.last_user_event
    &&& b.ui_state == a.ui_state
}

proof fn lemma_damaged_twice(h: u32, a: nat, b: nat)
    ensures
        damaged(damaged(h, a), b) == damaged(h, a + b),
{
}

/// What one combat pass does to world `a`, giving `b`.
pub open spec fn combat_done(a: &GameWorld, b: &GameWorld) -> bool {
    &&& resolved(a, b, a.entities.count())
    &&& combat_frame(a, b)
}

/// The system that resolves attacks.
pub struct Combat;

impl Combat {
    /// Every alive armed entity with a target other than itself deals its
    /// damage to the target once, if the target can be damaged; a target left
    /// with no health is deleted (and leaves the spatial index). Every target is
    /// cleared, whatever came of it.
    pub fn run(&self, world: &mut GameWorld)
        requires
            old(world).wf(),
        ensures
            final(world).wf(),
            combat_done(old(world), final(world)),
            forall|k: usize| #[trigger] final(world).armed@.contains_key(k) ==> final(world).armed@[k].targetting is None,
    {
        let n = world.entities.len();
        let ghost w0 = *world;
        proof {
            assert(Set::new(|t: usize| killed(&w0, t, 0)) =~= Set::<usize>::empty());
            assert(world.entities.doomed() =~= w0.entities.doomed().union(
                Set::new(|t: usize| killed(&w0, t, 0)),
            ));
            assert(world.placed() =~= w0.placed().remove_keys(Set::new(|t: usize| killed(&w0, t, 0))));
        }
        let mut i: usize = 0;
        while i < n
            invariant
                0 <= i <= n,
                n == w0.entities.count(),
                w0 == *old(world),
                w0.wf(),
                world.wf(),
                resolved(&w0, world, i as nat),
                combat_frame(&w0, world),
            decreases n - i,
        {
            let attacker = Entity { id: i };
            let ghost before = *world;
            proof {
                lemma_step_facts(&w0, i);
            }
            let alive = world.entities.is_alive(attacker);
            let armed_opt = if alive {
                match world.armed.get(attacker) {
                    Some(a) => Some(*a),
                    None => None,
                }
            } else {
                None
            };
            match armed_opt {
                None => {
                    proof {
                        assert forall|t: usize| !strikes(&w0, i, t) by {}
                        lemma_no_strike_step(&w0, &before, world, i);
                    }
                },
                Some(armed) => {
                    assert(armed == w0.armed@[i]);
                    world.armed.insert(attacker, Armed { damage: armed.damage, targetting: None });
                    assert(keys_alive(world.armed@, world.entities.alive()));
                    let ghost cleared = *world;
                    assert(cleared.placed() =~= before.placed());
                    let mut hit: Option<Entity> = None;
                    if let Some(target) = armed.targetting {
                        if target.id != i {
                            hit = Some(target);
                        }
                    }
                    match hit {
                        None => {
                            proof {
                                assert forall|t: usize| !strikes(&w0, i, t) by {}
                                lemma_no_strike_step(&w0, &before, world, i);
                            }
                        },
                        Some(target) => {
                            assert(strikes(&w0, i, target.id));
                            assert forall|t: usize| t != target.id implies !strikes(&w0, i, t) by {}
                            match world.damageable.get(target) {
                                None => {
                                    proof {
                                        lemma_strike_undamageable_step(&w0, &before, world, i, target.id);
                                    }
                                },
                                Some(d) => {
                                    let hurt = Damageable {
                                        health: apply_damage(d.health, armed.damage),
                                        max_health: d.max_health,
                                    };
                                    proof {
                                        world.entities.lemma_bounds();
                                    }
                                    world.damageable.insert(target, hurt);
                                    assert(keys_alive(world.damageable@, world.entities.alive()));
                                    assert(world.placed() =~= before.placed());
                                    let ghost hurt_world = *world;
                                    if hurt.health == 0 && world.entities.is_alive(target)
                                        && !world.entities.is_doomed(target) {
                                        world.delete_entity(target);
                                    }
                                    proof {
                                        lemma_strike_step(&w0, &before, &hurt_world, world, i, target.id);
                                    }
                                },
                            }
                        },
                    }
                },
            }
            i = i + 1;
        }
        proof {
            w0.entities.lemma_bounds();
            assert forall|k: usize| #[trigger] world.armed@.contains_key(k) implies world.armed@[k].targetting is None by {
                assert(w0.armed@.contains_key(k));
            }
        }
    }
}

/// How the pass totals grow by one attacker.
proof fn lemma_step_facts(w0: &GameWorld, i: usize)
    ensures
        forall|t: usize|
            #[trigger] incoming(w0, t, (i + 1) as nat) == incoming(w0, t, i as nat) + if strikes(
                w0,
                i,
                t,
            ) {
                w0.armed@[i].damage as nat
            } else {
                0
            },
        forall|t: usize| #[trigger] struck(w0, t, (i + 1) as nat) == (struck(w0, t, i as nat) || strikes(w0, i, t)),
{
    assert forall|t: usize| #[trigger] struck(w0, t, (i + 1) as nat) == (struck(w0, t, i as nat) || strikes(w0, i, t)) by {
        if struck(w0, t, (i + 1) as nat) {
            let k = choose|k: usize| k < i + 1 && #[trigger] strikes(w0, k, t);
            if k < i {
                assert(struck(w0, t, i as nat));
            }
        }
        if struck(w0, t, i as nat) {
            let k = choose|k: usize| k < i && #[trigger] strikes(w0, k, t);
            assert(k < i + 1);
        }
        if strikes(w0, i, t) {
            assert(i < i + 1);
        }
    }
}

proof fn lemma_no_strike_step(w0: &GameWorld, before: &GameWorld, b: &GameWorld, i: usize)
    requires
        resolved(w0, before, i as nat),
        b.entities == before.entities,
        b.placed() == before.placed(),
        b.damageable@ == before.damageable@,
        forall|k: usize| #[trigger] b.armed@.contains_key(k) == w0.armed@.contains_key(k),
        forall|k: usize| #[trigger]
            w0.armed@.contains_key(k) ==> b.armed@[k].damage == w0.armed@[k].damage,
        forall|t: usize| !strikes(w0, i, t),
        forall|t: usize|
            #[trigger] incoming(w0, t, (i + 1) as nat) == incoming(w0, t, i as nat) + if strikes(
                w0,
                i,
                t,
            ) {
                w0.armed@[i].damage as nat
            } else {
                0
            },
        forall|t: usize| #[trigger] struck(w0, t, (i + 1) as nat) == (struck(w0, t, i as nat) || strikes(w0, i, t)),
        forall|k: usize| #[trigger]
            w0.armed@.contains_key(k) ==> b.armed@[k].targetting == if k < i + 1 && w0.entities.alive().contains(k) {
                None
            } else {
                w0.armed@[k].targetting
            },
    ensures
        resolved(w0, b, (i + 1) as nat),
{
    assert(Set::new(|t: usize| killed(w0, t, (i + 1) as nat)) =~= Set::new(|t: usize| killed(w0, t, i as nat)));
    assert forall|t: usize| #[trigger] w0.damageable@.contains_key(t) implies b.damageable@[t] == Damageable {
            health: damaged(w0.damageable@[t].health, incoming(w0, t, (i + 1) as nat)),
            max_health: w0.damageable@[t].max_health,
        } by {
        assert(incoming(w0, t, (i + 1) as nat) == incoming(w0, t, i as nat));
    }
}

proof fn lemma_strike_undamageable_step(w0: &GameWorld, before: &GameWorld, b: &GameWorld, i: usize, target: usize)
    requires
        resolved(w0, before, i as nat),
        b.entities == before.entities,
        b.placed() == before.placed(),
        b.damageable@ == before.damageable@,
        forall|k: usize| #[trigger] b.armed@.contains_key(k) == w0.armed@.contains_key(k),
        forall|k: usize| #[trigger]
            w0.armed@.contains_key(k) ==> b.armed@[k].damage == w0.armed@[k].damage,
        !b.damageable@.contains_key(target),
        forall|t: usize| t != target ==> !strikes(w0, i, t),
        forall|t: usize|
            #[trigger] incoming(w0, t, (i + 1) as nat) == incoming(w0, t, i as nat) + if strikes(
                w0,
                i,
                t,
            ) {
                w0.armed@[i].damage as nat
            } else {
                0
            },
        forall|t: usize| #[trigger] struck(w0, t, (i + 1) as nat) == (struck(w0, t, i as nat) || strikes(w0, i, t)),
        forall|k: usize| #[trigger]
            w0.armed@.contains_key(k) ==> b.armed@[k].targetting == if k < i + 1 && w0.entities.alive().contains(k) {
                None
            } else {
                w0.armed@[k].targetting
            },
    ensures
        resolved(w0, b, (i + 1) as nat),
{
    assert(!w0.damageable@.contains_key(target));
    assert(Set::new(|t: usize| killed(w0, t, (i + 1) as nat)) =~= Set::new(|t: usize| killed(w0, t, i as nat)));
    assert forall|t: usize| #[trigger] w0.damageable@.contains_key(t) implies b.damageable@[t] == Damageable {
            health: damaged(w0.damageable@[t].health, incoming(w0, t, (i + 1) as nat)),
            max_health: w0.damageable@[t].max_health,
        } by {
        assert(incoming(w0, t, (i + 1) as nat) == incoming(w0, t, i as nat));
    }
}

proof fn lemma_strike_step(w0: &GameWorld, before: &GameWorld, hurt: &GameWorld, b: &GameWorld, i: usize, target: usize)
    requires
        resolved(w0, before, i as nat),
        strikes(w0, i, target),
        forall|t: usize| t != target ==> !strikes(w0, i, t),
        forall|t: usize|
            #[trigger] incoming(w0, t, (i + 1) as nat) == incoming(w0, t, i as nat) + if strikes(
                w0,
                i,
                t,
            ) {
                w0.armed@[i].damage as nat
            } else {
                0
            },
        forall|t: usize| #[trigger] struck(w0, t, (i + 1) as nat) == (struck(w0, t, i as nat) || strikes(w0, i, t)),
        before.damageable@.contains_key(target),
        hurt.damageable@ == before.damageable@.insert(target, Damageable {
            health: damaged(before.damageable@[target].health, w0.armed@[i].damage as nat),
            max_health: before.damageable@[target].max_health,
        }),
        hurt.entities == before.entities,
        hurt.placed() == before.placed(),
        hurt.armed@ == b.armed@,
        forall|k: usize| #[trigger]
            w0.armed@.contains_key(k) ==> b.armed@[k].targetting == if k < i + 1 && w0.entities.alive().contains(k) {
                None
            } else {
                w0.armed@[k].targetting
            },
        forall|k: usize| #[trigger] b.armed@.contains_key(k) == w0.armed@.contains_key(k),
        forall|k: usize| #[trigger]
            w0.armed@.contains_key(k) ==> b.armed@[k].damage == w0.armed@[k].damage,
        b.damageable@ == hurt.damageable@,
        ({
            let dies = hurt.damageable@[target].health == 0 && hurt.entities.live(target);
            &&& dies ==> b.entities.count() == hurt.entities.count() && b.entities.alive() == hurt.entities.alive()
                && b.entities.doomed() == hurt.entities.doomed().insert(target) && b.placed() == hurt.placed().remove(target)
            &&& !dies ==> b.entities == hurt.entities && b.placed() == hurt.placed()
        }),
    ensures
        resolved(w0, b, (i + 1) as nat),
{
    let n1 = (i + 1) as nat;
    let n0 = i as nat;
    assert(w0.damageable@.contains_key(target));
    lemma_damaged_twice(w0.damageable@[target].health, incoming(w0, target, n0), w0.armed@[i].damage as nat);
    assert(struck(w0, target, n1));
    assert forall|t: usize| killed(w0, t, n0) implies killed(w0, t, n1) by {
        if t == target {
            lemma_damaged_twice(w0.damageable@[t].health, incoming(w0, t, n0), w0.armed@[i].damage as nat);
        } else {
            assert(incoming(w0, t, n1) == incoming(w0, t, n0));
        }
    }
    assert forall|t: usize| t != target implies (killed(w0, t, n1) == killed(w0, t, n0)) by {
        assert(incoming(w0, t, n1) == incoming(w0, t, n0));
    }
    let k0 = Set::new(|t: usize| killed(w0, t, n0));
    let k1 = Set::new(|t: usize| killed(w0, t, n1));
    assert(before.entities.live(target) == (w0.entities.live(target) && !killed(w0, target, n0)));
    if killed(w0, target, n1) && !killed(w0, target, n0) {
        assert(k1 =~= k0.insert(target));
        assert(b.entities.doomed() =~= w0.entities.doomed().union(k1));
        assert(b.placed() =~= w0.placed().remove_keys(k1));
    } else {
        assert(k1 =~= k0);
    }
    assert forall|t: usize| #[trigger] w0.damageable@.contains_key(t) implies b.damageable@[t] == Damageable {
            health: damaged(w0.damageable@[t].health, incoming(w0, t, n1)),
            max_health: w0.damageable@[t].max_health,
        } by {
        if t != target {
            assert(incoming(w0, t, n1) == incoming(w0, t, n0));
        }
    }
}

} // verus!
