use vstd::prelude::*;

use crate::common::Color;
use crate::store::Entity;

verus! {

/// One cardinal step on the grid; `Up` lowers `y`, `Down` raises it.
#[derive(Clone, Copy, Debug, PartialEq, Eq, Structural)]
pub enum Direction {
    Right,
    Left,
    Up,
    Down,
}

/// An entity that can be asked to take one step per tick.
#[derive(Clone, Copy, Debug, PartialEq, Eq, Structural)]
pub struct Movable {
    pub unprocessed_move: Option<Direction>,
}

/// Blocks movement into its cell.
#[derive(Clone, Copy, Debug, PartialEq, Eq, Structural)]
pub struct Collidable;

/// Blocks sight through its cell.
#[derive(Clone, Copy, Debug, PartialEq, Eq, Structural)]
pub struct Opaque;

/// Can be picked up by an inventoried entity on the same cell.
#[derive(Clone, Copy, Debug, PartialEq, Eq, Structural)]
pub struct Pickupable;

/// Takes the player to the next level when stepped on.
#[derive(Clone, Copy, Debug, PartialEq, Eq, Structural)]
pub struct Climbable;

/// Picks up the pickupable entities on its cell.
#[derive(Clone, Copy, Debug, PartialEq, Eq, Structural)]
pub struct Inventoried;

/// Moves on its own, towards the player.
#[derive(Clone, Copy, Debug, PartialEq, Eq, Structural)]
pub struct AIControlled;

/// Moves as the player's input says.
#[derive(Clone, Copy, Debug, PartialEq, Eq, Structural)]
pub struct PlayerControlled;

/// Health of an entity that can be hurt; it is destroyed at zero.
#[derive(Clone, Copy, Debug, PartialEq, Eq, Structural)]
pub struct Damageable {
    pub health: u32,
    pub max_health: u32,
}

/// An entity that deals `damage` to the entity it targets, once per tick.
#[derive(Clone, Copy, Debug, PartialEq, Eq, Structural)]
pub struct Armed {
    pub damage: u32,
    pub targetting: Option<Entity>,
}

#[derive(Clone, Copy, Debug, PartialEq, Eq, Structural)]
pub enum Faction {
    Player,
    Enemy,
}

#[derive(Clone, Copy, Debug, PartialEq, Eq, Structural)]
pub struct Factioned {
    pub faction: Faction,
}

/// A level of the dungeon; its geometry is generated once.
#[derive(Clone, Copy, Debug, PartialEq, Eq, Structural)]
pub struct Level {
    pub generated: bool,
}

/// Owner of an entity: the level it belongs to, or the entity carrying it.
#[derive(Clone, Copy, Debug, PartialEq, Eq, Structural)]
pub struct Parent {
    pub entity: Entity,
}

/// Drawing order bucket: lower layers are drawn first.
#[derive(Clone, Copy, Debug, PartialEq, Eq, Structural)]
pub enum ZLayer {
    Ground,
    Creature,
    Item,
    Saturating,
}

impl ZLayer {
    pub open spec fn spec_rank(self) -> u8 {
        match self {
            ZLayer::Ground => 0,
            ZLayer::Creature => 1,
            ZLayer::Item => 2,
            ZLayer::Saturating => 3,
        }
    }

    /// Position of the layer in drawing order.
    pub fn rank(&self) -> (r: u8)
        ensures
            r == self.spec_rank(),
    {
        match self {
            ZLayer::Ground => 0,
            ZLayer::Creature => 1,
            ZLayer::Item => 2,
            ZLayer::Saturating => 3,
        }
    }
}

/// How an entity is drawn.
#[derive(Clone, Copy, Debug, PartialEq, Eq, Structural)]
pub struct Render {
    pub glyph: Option<char>,
    pub foreground_color: Color,
    pub background_color: Option<Color>,
    pub z_layer: ZLayer,
}

/// A label shown when the entity is inspected or carried.
#[derive(Clone, Debug)]
pub struct Describable {
    pub description: String,
}

/// What an entity with sight sees. Both sets are indexed by entity id:
/// `seen` holds what is in sight this tick, `seen_recently` what was in sight
/// at some earlier tick on this level (the remembered part of the map).
#[derive(Clone, Debug)]
pub struct Sighted {
    pub seen: Vec<bool>,
    pub seen_recently: Vec<bool>,
}

/// The entity ids that a bit vector marks.
pub open spec fn marked(bits: Seq<bool>) -> Set<usize> {
    Set::new(|i: usize| i < bits.len() && bits[i as int])
}

impl Sighted {
    pub fn new() -> (s: Sighted)
        ensures
            marked(s.seen@) == Set::<usize>::empty(),
            marked(s.seen_recently@) == Set::<usize>::empty(),
    {
        let s = Sighted { seen: Vec::new(), seen_recently: Vec::new() };
        assert(marked(s.seen@) =~= Set::<usize>::empty());
        assert(marked(s.seen_recently@) =~= Set::<usize>::empty());
        s
    }

    pub fn sees(&self, e: Entity) -> (r: bool)
        ensures
            r == marked(self.seen@).contains(e.id),
    {
        e.id < self.seen.len() && self.seen[e.id]
    }

    pub fn recalls(&self, e: Entity) -> (r: bool)
        ensures
            r == marked(self.seen_recently@).contains(e.id),
    {
        e.id < self.seen_recently.len() && self.seen_recently[e.id]
    }
}

} // verus!
