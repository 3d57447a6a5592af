use vstd::prelude::*;

use crate::components::marked;
use crate::game::GameWorld;
use crate::store::Entity;
use crate::world::{cell_of, in_bounds, WorldPosition};

verus! {

/// The texts of a sequence of strings.
pub open spec fn texts(s: Seq<String>) -> Seq<Seq<char>> {
    s.map_values(|x: String| x@)
}

/// `i` belongs to `owner` through a chain of at most `fuel + 1` owners:
/// its owner is `owner`, or its owner belongs to `owner`.
pub open spec fn descends(w: &GameWorld, i: usize, owner: usize, fuel: nat) -> bool
    decreases fuel,
{
    w.parent@.contains_key(i) && (w.parent@[i].entity.id == owner || (fuel > 0 && descends(
        w,
        w.parent@[i].entity.id,
        owner,
        (fuel - 1) as nat,
    )))
}

/// `i` is in the ownership subtree of `owner` (a chain of owners longer than
/// the number of entities would have to go round in a circle).
pub open spec fn in_subtree(w: &GameWorld, i: usize, owner: usize) -> bool {
    descends(w, i, owner, w.entities.count())
}

/// Whether `e` is in the ownership subtree of `owner`.
pub fn belongs_to(world: &GameWorld, e: Entity, owner: Entity) -> (r: bool)
    ensures
        r == in_subtree(world, e.id, owner.id),
{
    let mut cur = e;
    let mut fuel = world.entities.len();
    loop
        invariant
            in_subtree(world, e.id, owner.id) == descends(world, cur.id, owner.id, fuel as nat),
        decreases fuel,
    {
        match world.parent.get(cur) {
            None => {
                return false;
            },
            Some(p) => {
                if p.entity.id == owner.id {
                    return true;
                }
                if fuel == 0 {
                    return false;
                }
                cur = p.entity;
                fuel = fuel - 1;
            },
        }
    }
}

/// Descriptions of the live entities with id below `n` in `owner`'s ownership subtree, by id.
pub open spec fn owned_descriptions(w: &GameWorld, owner: usize, n: nat) -> Seq<Seq<char>>
    decreases n,
{
    if n == 0 {
        Seq::empty()
    } else {
        let i = (n - 1) as usize;
        let before = owned_descriptions(w, owner, (n - 1) as nat);
        if w.entities.live(i) && in_subtree(w, i, owner) && w.describable@.contains_key(i) {
            before.push(w.describable@[i].description@)
        } else {
            before
        }
    }
}

/// Descriptions of the first `k` of `occupants` that viewer `v` sees or remembers.
pub open spec fn inspected_descriptions(w: &GameWorld, v: usize, occupants: Seq<Entity>, k: nat) -> Seq<Seq<char>>
    decreases k,
{
    if k == 0 || k > occupants.len() {
        Seq::empty()
    } else {
        let e = occupants[k - 1].id;
        let before = inspected_descriptions(w, v, occupants, (k - 1) as nat);
        if (marked(w.sighted@[v].seen@).contains(e) || marked(w.sighted@[v].seen_recently@).contains(e))
            && w.describable@.contains_key(e) {
            before.push(w.describable@[e].description@)
        } else {
            before
        }
    }
}

/// The player the panel speaks of: the live player-controlled entity with
/// the least id.
pub open spec fn panel_player(w: &GameWorld, p: usize) -> bool {
    &&& w.entities.live(p)
    &&& w.player_controlled@.contains_key(p)
    &&& forall|k: usize| k < p ==> !(w.entities.live(k) && #[trigger] w.player_controlled@.contains_key(k))
}

/// What the side panel shows.
pub struct UiSnapshot {
    /// Health of the player, if it can be hurt.
    pub player_health: Option<u32>,
    /// Descriptions of what the player carries.
    pub inventory: Vec<String>,
    /// Descriptions of what the player sees or remembers on the hovered cell;
    /// none when the hovered cell has not changed since the last run.
    pub inspected: Option<Vec<String>>,
}

fn find_panel_player(world: &GameWorld) -> (r: Option<Entity>)
    requires
        world.wf(),
    ensures
        r is None ==> forall|k: usize| !(world.entities.live(k) && #[trigger] world.player_controlled@.contains_key(k)),
        r is Some ==> panel_player(world, r->0.id),
{
    let n = world.entities.len();
    let mut i: usize = 0;
    while i < n
        invariant
            0 <= i <= n,
            n == world.entities.count(),
            forall|k: usize| k < i ==> !(world.entities.live(k) && #[trigger] world.player_controlled@.contains_key(k)),
        decreases n - i,
    {
        let e = Entity { id: i };
        if world.entities.is_alive(e) && !world.entities.is_doomed(e) && world.player_controlled.contains(e) {
            return Some(e);
        }
        i = i + 1;
    }
    proof {
        world.entities.lemma_bounds();
    }
    None
}

/// Descriptions of the live entities in `owner`'s ownership subtree, by id.
pub fn inventory_of(world: &GameWorld, owner: Entity) -> (r: Vec<String>)
    requires
        world.wf(),
    ensures
        texts(r@) == owned_descriptions(world, owner.id, world.entities.count()),
{
    let n = world.entities.len();
    let mut r: Vec<String> = Vec::new();
    let mut i: usize = 0;
    while i < n
        invariant
            0 <= i <= n,
            n == world.entities.count(),
            texts(r@) == owned_descriptions(world, owner.id, i as nat),
        decreases n - i,
    {
        let e = Entity { id: i };
        if world.entities.is_alive(e) && !world.entities.is_doomed(e) {
            if belongs_to(world, e, owner) {
                if let Some(d) = world.describable.get(e) {
                    let ghost before = r@;
                    r.push(d.description.clone());
                    assert(texts(r@) =~= texts(before).push(d.description@));
                }
            }
        }
        i = i + 1;
    }
    r
}

/// Descriptions of the entities on `cell` that viewer `v` sees or remembers,
/// in the spatial index's order.
pub fn inspect(world: &GameWorld, v: Entity, cell: WorldPosition) -> (r: Vec<String>)
    requires
        world.wf(),
        world.sighted@.contains_key(v.id),
        in_bounds(cell, world.parameters.width, world.parameters.height),
    ensures
        texts(r@) == inspected_descriptions(world, v.id, world.lookup.occupants(cell), world.lookup.occupants(cell).len()),
{
    let sighted = world.sighted.get(v).unwrap();
    let occupants = world.lookup.entities_at(cell);
    let mut r: Vec<String> = Vec::new();
    let mut k: usize = 0;
    while k < occupants.len()
        invariant
            0 <= k <= occupants@.len(),
            occupants@ == world.lookup.occupants(cell),
            *sighted == world.sighted@[v.id],
            texts(r@) == inspected_descriptions(world, v.id, occupants@, k as nat),
        decreases occupants@.len() - k,
    {
        let e = occupants[k];
        if sighted.sees(e) || sighted.recalls(e) {
            if let Some(d) = world.describable.get(e) {
                let ghost before = r@;
                r.push(d.description.clone());
                assert(texts(r@) =~= texts(before).push(d.description@));
            }
        }
        k = k + 1;
    }
    r
}

/// The system that feeds the side panel.
pub struct UI {
    pub last_mouse_over_position: Option<WorldPosition>,
}

impl UI {
    /// The panel's contents: the player's health and what it carries, and,
    /// when the hovered cell changed, what the player sees or remembers there.
    pub fn run(&mut self, world: &GameWorld) -> (r: UiSnapshot)
        requires
            world.wf(),
        ensures
            forall|p: usize| #[trigger] panel_player(world, p) ==> {
                &&& r.player_health == if world.damageable@.contains_key(p) {
                    Some(world.damageable@[p].health)
                } else {
                    None
                }
                &&& texts(r.inventory@) == owned_descriptions(world, p, world.entities.count())
            },
            (forall|k: usize| !(world.entities.live(k) && #[trigger] world.player_controlled@.contains_key(k)))
                ==> r.player_health is None && r.inventory@.len() == 0,
            ({
                let hovered = match world.ui_state.mouse_over {
                    Some(c) => Some(cell_of(c)),
                    None => None,
                };
                &&& hovered == old(self).last_mouse_over_position ==> r.inspected is None && *final(self) == *old(self)
                &&& hovered != old(self).last_mouse_over_position ==> r.inspected is Some
                &&& forall|p: usize|
                    #[trigger] panel_player(world, p) && hovered is Some && world.sighted@.contains_key(p)
                        && old(self).last_mouse_over_position != hovered
                        ==> final(self).last_mouse_over_position == hovered && texts(r.inspected->0@) == if in_bounds(
                        hovered->0,
                        world.parameters.width,
                        world.parameters.height,
                    ) {
                        inspected_descriptions(
                            world,
                            p,
                            world.lookup.occupants(hovered->0),
                            world.lookup.occupants(hovered->0).len(),
                        )
                    } else {
                        Seq::empty()
                    }
                &&& !(exists|p: usize| #[trigger] panel_player(world, p) && hovered is Some && world.sighted@.contains_key(p))
                    && hovered != old(self).last_mouse_over_position ==> r.inspected->0@.len() == 0
                    && *final(self) == *old(self)
            }),
    {
        let player = find_panel_player(world);
        let mut snapshot = UiSnapshot { player_health: None, inventory: Vec::new(), inspected: None };
        if let Some(p) = player {
            snapshot.player_health = match world.damageable.get(p) {
                Some(d) => Some(d.health),
                None => None,
            };
            snapshot.inventory = inventory_of(world, p);
            proof {
                assert forall|q: usize| #[trigger] panel_player(world, q) implies q == p.id by {
                    if q < p.id {
                        assert(!(world.entities.live(q) && world.player_controlled@.contains_key(q)));
                    } else if p.id < q {
                        assert(!(world.entities.live(p.id) && world.player_controlled@.contains_key(p.id)));
                    }
                }
            }
        }
        let hovered = world.ui_state.mouse_over_position();
        if hovered == self.last_mouse_over_position {
            return snapshot;
        }
        let mut inspected: Vec<String> = Vec::new();
        if let Some(p) = player {
            if world.sighted.contains(p) {
                if let Some(c) = hovered {
                    if c.x < world.parameters.width && c.y < world.parameters.height {
                        inspected = inspect(world, p, c);
                    }
                    self.last_mouse_over_position = hovered;
                }
            }
        }
        assert(texts(Seq::<String>::empty()) =~= Seq::<Seq<char>>::empty());
        snapshot.inspected = Some(inspected);
        snapshot
    }
}

} // verus!
