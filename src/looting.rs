use vstd::prelude::*;

use crate::components::Parent;
use crate::game::{keys_alive, GameWorld};
use crate::store::Entity;

verus! {

/// `l` picks up `t`: `l` is a live inventoried entity on the grid, and `t` a
/// pickupable entity (other than `l`) on the same cell.
pub open spec fn looter_of(w: &GameWorld, l: usize, t: usize) -> bool {
    &&& w.entities.live(l)
    &&& w.inventoried@.contains_key(l)
    &&& w.placed().contains_key(l)
    &&& w.placed().contains_key(t)
    &&& w.placed()[l] == w.placed()[t]
    &&& w.pickupable@.contains_key(t)
    &&& l != t
}

/// `t` is picked up this tick.
pub open spec fn looted(w: &GameWorld, t: usize) -> bool {
    exists|l: usize| #[trigger] looter_of(w, l, t)
}

/// Some looter with id below `i` picks up `t`.
pub open spec fn picked_before(w: &GameWorld, i: usize, t: usize) -> bool {
    exists|l: usize| l < i && #[trigger] looter_of(w, l, t)
}

/// `t` came to belong to a looter of it.
pub open spec fn owned_by_looter(w0: &GameWorld, w: &GameWorld, t: usize) -> bool {
    w.parent@.contains_key(t) && looter_of(w0, w.parent@[t].entity.id, t)
}

proof fn lemma_push_keeps<T>(s: Seq<T>, x: T)
    ensures
        forall|y: T| s.contains(y) ==> #[trigger] s.push(x).contains(y),
        s.push(x).contains(x),
{
    assert forall|y: T| s.contains(y) implies #[trigger] s.push(x).contains(y) by {
        let k = choose|k: int| 0 <= k < s.len() && s[k] == y;
        assert(s.push(x)[k] == y);
    }
    assert(s.push(x)[s.len() as int] == x);
}

/// Everything that looting does not touch.
pub open spec fn looting_frame(a: &GameWorld, b: &GameWorld) -> bool {
    &&& b.entities == a.entities
    &&& b.movable == a.movable
    &&& b.collidable == a.collidable
    &&& b.opaque == a.opaque
    &&& b.pickupable == a.pickupable
    &&& b.climbable == a.climbable
    &&& b.inventoried == a.inventoried
    &&& b.ai_controlled == a.ai_controlled
    &&& b.player_controlled == a.player_controlled
    &&& b.damageable == a.damageable
    &&& b.armed == a.armed
    &&& b.factioned == a.factioned
    &&& b.level == a.level
    &&& b.render == a.render
    &&& b.describable == a.describable
    &&& b.sighted == a.sighted
    &&& b.parameters == a.parameters
    &&& b.time == a.time
    &&& b.last_user_event == a.last_user_event
    &&& b.ui_state == a.ui_state
}

/// What one looting pass does to world `a`, giving `b`.
pub open spec fn looting_done(a: &GameWorld, b: &GameWorld) -> bool {
    &&& looting_frame(a, b)
    &&& b.placed() == a.placed().remove_keys(Set::new(|t: usize| looted(a, t)))
    &&& b.world_position@ == a.world_position@.remove_keys(Set::new(|t: usize| looted(a, t)))
    &&& forall|t: usize|
        #[trigger] looted(a, t) ==> b.parent@.contains_key(t) && looter_of(a, b.parent@[t].entity.id, t)
    &&& forall|t: usize|
        !(#[trigger] looted(a, t)) ==> b.parent@.contains_key(t) == a.parent@.contains_key(t) && (
        a.parent@.contains_key(t) ==> b.parent@[t] == a.parent@[t])
}

/// The system that moves items into the possession of whoever stands on them.
pub struct Looting;

impl Looting {
    /// Every pickupable entity that shares a cell with a live inventoried
    /// entity comes to belong to one such entity and leaves the grid (its
    /// position and its place in the spatial index); nothing else moves.
    pub fn run(&self, world: &mut GameWorld)
        requires
            old(world).wf(),
        ensures
            final(world).wf(),
            looting_done(old(world), final(world)),
    {
        let n = world.entities.len();
        let ghost w0 = *world;
        let mut items: Vec<Entity> = Vec::new();
        let mut i: usize = 0;
        while i < n
            invariant
                0 <= i <= n,
                n == w0.entities.count(),
                w0 == *old(world),
                w0.wf(),
                world.wf(),
                looting_frame(&w0, world),
                world.world_position == w0.world_position,
                world.lookup == w0.lookup,
                world.placed() == w0.placed(),
                forall|k: int| 0 <= k < items@.len() ==> looted(&w0, #[trigger] items@[k].id),
                forall|t: usize|
                    #[trigger] picked_before(&w0, i, t) ==> items@.contains(Entity { id: t }) && owned_by_looter(&w0, world, t),
                forall|t: usize|
                    #[trigger] world.parent@.contains_key(t) != w0.parent@.contains_key(t) || (
                    world.parent@.contains_key(t) && world.parent@[t] != w0.parent@[t])
                        ==> owned_by_looter(&w0, world, t),
            decreases n - i,
        {
            let looter = Entity { id: i };
            if world.entities.is_alive(looter) && !world.entities.is_doomed(looter)
                && world.inventoried.contains(looter) {
                if let Some(p) = world.lookup.position_of(looter) {
                    proof {
                        world.lookup.lemma_consistent(looter, p);
                    }
                    let occupants = world.lookup.entities_at(p);
                    let mut k: usize = 0;
                    while k < occupants.len()
                        invariant
                            0 <= k <= occupants@.len(),
                            occupants@ == w0.lookup.occupants(p),
                            forall|j: int| 0 <= j < occupants@.len() ==> w0.placed().contains_key(#[trigger] occupants@[j].id)
                                && w0.placed()[occupants@[j].id] == p,
                            forall|t: usize| w0.placed().contains_key(t) && w0.placed()[t] == p ==> occupants@.contains(Entity { id: t }),
                            looter == (Entity { id: i }),
                            w0.placed().contains_key(i),
                            w0.placed()[i] == p,
                            w0.entities.live(i),
                            w0.inventoried@.contains_key(i),
                            w0.wf(),
                            world.wf(),
                            looting_frame(&w0, world),
                            world.world_position == w0.world_position,
                            world.lookup == w0.lookup,
                            world.placed() == w0.placed(),
                            forall|k: int| 0 <= k < items@.len() ==> looted(&w0, #[trigger] items@[k].id),
                            forall|t: usize|
                                #[trigger] picked_before(&w0, i, t) ==> items@.contains(Entity { id: t }) && owned_by_looter(&w0, world, t),
                            forall|j: int|
                                0 <= j < k && looter_of(&w0, i, #[trigger] occupants@[j].id) ==> items@.contains(
                                    occupants@[j],
                                ) && owned_by_looter(&w0, world, occupants@[j].id),
                            forall|t: usize|
                                #[trigger] world.parent@.contains_key(t) != w0.parent@.contains_key(t) || (
                                world.parent@.contains_key(t) && world.parent@[t] != w0.parent@[t])
                                    ==> owned_by_looter(&w0, world, t),
                        decreases occupants@.len() - k,
                    {
                        let o = occupants[k];
                        if o.id != i && world.pickupable.contains(o) {
                            proof {
                                assert(looter_of(&w0, i, o.id));
                                world.entities.lemma_bounds();
                            }
                            let ghost mid = *world;
                            world.parent.insert(o, Parent { entity: looter });
                            assert(keys_alive(world.parent@, world.entities.alive()));
                            let ghost old_items = items@;
                            proof {
                                lemma_push_keeps(items@, o);
                            }
                            items.push(o);
                            assert(world.placed() =~= w0.placed());
                            proof {
                                assert(items@ == old_items.push(o));
                                assert forall|t: usize| #[trigger] picked_before(&w0, i, t) implies items@.contains(
                                    Entity { id: t },
                                ) && owned_by_looter(&w0, world, t) by {
                                    assert(old_items.contains(Entity { id: t }));
                                    assert(old_items.push(o).contains(Entity { id: t }));
                                    if t != o.id {
                                        assert(world.parent@[t] == mid.parent@[t]);
                                        assert(owned_by_looter(&w0, &mid, t));
                                    } else {
                                        assert(world.parent@[t] == Parent { entity: looter });
                                        assert(looter_of(&w0, i, t));
                                    }
                                }
                                assert forall|jj: int|
                                    0 <= jj < k + 1 && looter_of(&w0, i, #[trigger] occupants@[jj].id) implies items@.contains(
                                        occupants@[jj],
                                    ) && owned_by_looter(&w0, world, occupants@[jj].id) by {
                                    if jj < k {
                                        assert(old_items.contains(occupants@[jj]));
                                        assert(old_items.push(o).contains(occupants@[jj]));
                                        if occupants@[jj].id != o.id {
                                            assert(world.parent@[occupants@[jj].id] == mid.parent@[occupants@[jj].id]);
                                        }
                                    }
                                }
                            }
                        }
                        k = k + 1;
                    }
                    proof {
                        assert forall|t: usize| #[trigger] picked_before(&w0, (i + 1) as usize, t) implies items@.contains(
                                Entity { id: t },
                            ) && owned_by_looter(&w0, world, t) by {
                            let l = choose|l: usize| l < i + 1 && #[trigger] looter_of(&w0, l, t);
                            if l == i {
                                assert(occupants@.contains(Entity { id: t }));
                                let j = choose|j: int| 0 <= j < occupants@.len() && occupants@[j] == Entity { id: t };
                                assert(looter_of(&w0, i, occupants@[j].id));
                            } else {
                                assert(picked_before(&w0, i, t));
                            }
                        }
                    }
                } else {
                    proof {
                        assert forall|t: usize| #[trigger] picked_before(&w0, (i + 1) as usize, t) implies items@.contains(
                            Entity { id: t },
                        ) && owned_by_looter(&w0, world, t) by {
                        let l = choose|l: usize| l < i + 1 && #[trigger] looter_of(&w0, l, t);
                        assert(l != i);
                        assert(picked_before(&w0, i, t));
                    }
                    }
                }
            } else {
                proof {
                    assert forall|t: usize| #[trigger] picked_before(&w0, (i + 1) as usize, t) implies items@.contains(
                            Entity { id: t },
                        ) && owned_by_looter(&w0, world, t) by {
                        let l = choose|l: usize| l < i + 1 && #[trigger] looter_of(&w0, l, t);
                        assert(l != i);
                        assert(picked_before(&w0, i, t));
                    }
                }
            }
            i = i + 1;
        }
        let ghost gone = Set::new(|t: usize| looted(&w0, t));
        proof {
            w0.entities.lemma_bounds();
            assert forall|t: usize| #[trigger] looted(&w0, t) implies items@.contains(Entity { id: t })
                && owned_by_looter(&w0, world, t) by {
                let l = choose|l: usize| #[trigger] looter_of(&w0, l, t);
                assert(l < n);
                assert(picked_before(&w0, n, t));
            }
        }
        let ghost phase1 = *world;
        let mut j: usize = 0;
        while j < items.len()
            invariant
                0 <= j <= items@.len(),
                world.wf(),
                looting_frame(&w0, world),
                world.parent == phase1.parent,
                forall|k: int| 0 <= k < items@.len() ==> looted(&w0, #[trigger] items@[k].id),
                world.placed() == w0.placed().remove_keys(Set::new(|t: usize| exists|k: int| 0 <= k < j && items@[k].id == t)),
                world.world_position@ == w0.world_position@.remove_keys(Set::new(|t: usize| exists|k: int| 0 <= k < j && items@[k].id == t)),
            decreases items@.len() - j,
        {
            let ghost before = *world;
            world.unplace(items[j]);
            proof {
                let s0 = Set::new(|t: usize| exists|k: int| 0 <= k < j && items@[k].id == t);
                let s1 = Set::new(|t: usize| exists|k: int| 0 <= k < j + 1 && items@[k].id == t);
                assert(s1 =~= s0.insert(items@[j as int].id));
                assert(world.placed() =~= w0.placed().remove_keys(s1));
                assert(world.world_position@ =~= w0.world_position@.remove_keys(s1));
            }
            j = j + 1;
        }
        proof {
            let s = Set::new(|t: usize| exists|k: int| 0 <= k < items@.len() && items@[k].id == t);
            assert forall|t: usize| s.contains(t) <==> gone.contains(t) by {
                if gone.contains(t) {
                    assert(items@.contains(Entity { id: t }));
                    let k = choose|k: int| 0 <= k < items@.len() && items@[k] == Entity { id: t };
                    assert(items@[k].id == t);
                }
                if s.contains(t) {
                    let k = choose|k: int| 0 <= k < items@.len() && items@[k].id == t;
                    assert(looted(&w0, items@[k].id));
                }
            }
            assert(s =~= gone);
            assert forall|t: usize| !(#[trigger] looted(&w0, t)) implies world.parent@.contains_key(t)
                == w0.parent@.contains_key(t) && (w0.parent@.contains_key(t) ==> world.parent@[t] == w0.parent@[t]) by {
            }
        }
    }
}

} // verus!
