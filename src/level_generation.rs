use vstd::prelude::*;

use crate::common::Color;
use crate::components::{
    marked, AIControlled, Armed, Climbable, Collidable, Damageable, Describable, Direction, Faction,
    Factioned, Inventoried, Level, Movable, Opaque, Parent, Pickupable, PlayerControlled, Render, Sighted,
    ZLayer,
};
use crate::game::GameWorld;
use crate::store::Entity;
use crate::lookup::{cell_at, cell_index, lemma_cell_at, lemma_cell_index};
use vstd::arithmetic::div_mod::{lemma_fundamental_div_mod, lemma_fundamental_div_mod_converse};
use crate::random::{
    direction_of, draw_of, index_of, lemma_index_of, next_state, pick, random_in_range, random_in_vec, random_in_vec_and_remove, Rng,
};
use crate::world::{in_bounds, moved_spec, WorldPosition};

verus! {

/// State of the carving walk after `moves` single steps: the generator state,
/// where each digger stands, and the cells carved so far. The diggers step in
/// turn, each in a drawn direction, and every cell a digger stands on is carved.
pub open spec fn dig(
    state: u64,
    starts: Seq<WorldPosition>,
    width: u64,
    height: u64,
    moves: nat,
) -> (u64, Seq<WorldPosition>, Set<WorldPosition>)
    decreases moves,
{
    if moves == 0 {
        (state, starts, starts.to_set())
    } else {
        let (s, diggers, carved) = dig(state, starts, width, height, (moves - 1) as nat);
        let j = (moves - 1) as int % (starts.len() as int);
        let p = moved_spec(diggers[j], direction_of(draw_of(s)), width, height);
        (next_state(s), diggers.update(j, p), carved.insert(p))
    }
}

proof fn lemma_dig_in_bounds(state: u64, starts: Seq<WorldPosition>, width: u64, height: u64, moves: nat)
    requires
        width >= 1,
        height >= 1,
        starts.len() > 0,
        forall|i: int| 0 <= i < starts.len() ==> in_bounds(#[trigger] starts[i], width, height),
    ensures
        dig(state, starts, width, height, moves).1.len() == starts.len(),
        forall|i: int|
            0 <= i < starts.len() ==> in_bounds(
                #[trigger] dig(state, starts, width, height, moves).1[i],
                width,
                height,
            ),
    decreases moves,
{
    if moves > 0 {
        lemma_dig_in_bounds(state, starts, width, height, (moves - 1) as nat);
    }
}

/// Carves a `width` by `height` grid by letting diggers walk from `starts`
/// for `rounds` rounds, one step each per round. The result marks the
/// carved cells, slot `y * width + x` for cell `(x, y)`.
pub fn carve(rng: &mut Rng, width: u64, height: u64, starts: &Vec<WorldPosition>, rounds: usize) -> (grid:
    Vec<bool>)
    requires
        width >= 1,
        height >= 1,
        width * height <= usize::MAX,
        starts@.len() > 0,
        rounds * starts@.len() <= usize::MAX,
        forall|i: int| 0 <= i < starts@.len() ==> in_bounds(#[trigger] starts@[i], width, height),
    ensures
        ({
            let (s, _, carved) = dig(
                old(rng).state,
                starts@,
                width,
                height,
                (rounds * starts@.len()) as nat,
            );
            &&& final(rng).state == s
            &&& grid@.len() == width * height
            &&& forall|c: int| 0 <= c < grid@.len() ==> grid@[c] == carved.contains(cell_at(c, width))
        }),
{
    let n = starts.len();
    let total = rounds * n;
    let cells: usize = (width * height) as usize;
    let mut grid: Vec<bool> = Vec::new();
    while grid.len() < cells
        invariant
            grid@.len() <= cells,
            forall|c: int| 0 <= c < grid@.len() ==> !grid@[c],
        decreases cells - grid.len(),
    {
        grid.push(false);
    }
    let mut diggers: Vec<WorldPosition> = Vec::new();
    let mut i: usize = 0;
    while i < n
        invariant
            0 <= i <= n,
            n == starts@.len(),
            cells == width * height,
            grid@.len() == cells,
            diggers@ == starts@.take(i as int),
            forall|c: int|
                0 <= c < cells ==> grid@[c] == starts@.take(i as int).to_set().contains(
                    cell_at(c, width),
                ),
            forall|i: int| 0 <= i < starts@.len() ==> in_bounds(#[trigger] starts@[i], width, height),
        decreases n - i,
    {
        let p = starts[i];
        proof {
            lemma_cell_index(p, width, height);
        }
        let c: usize = (p.y * width + p.x) as usize;
        grid.set(c, true);
        diggers.push(p);
        proof {
            assert(starts@.take(i + 1) =~= starts@.take(i as int).push(p));
            starts@.take(i as int).lemma_push_to_set_commute(p);
            assert forall|cc: int| 0 <= cc < cells implies grid@[cc] == starts@.take(
                i + 1,
            ).to_set().contains(cell_at(cc, width)) by {
                lemma_cell_at(cc, width, height);
                assert(starts@.take(i + 1).to_set() =~= starts@.take(i as int).to_set().insert(p));
                if cell_at(cc, width) == p {
                    assert(cc == c);
                }
            }
        }
        i = i + 1;
    }
    assert(starts@.take(n as int) =~= starts@);
    let ghost s0 = old(rng).state;
    let mut k: usize = 0;
    while k < total
        invariant
            0 <= k <= total,
            total == rounds * n,
            n == starts@.len(),
            n > 0,
            cells == width * height,
            width >= 1,
            height >= 1,
            grid@.len() == cells,
            forall|i: int| 0 <= i < starts@.len() ==> in_bounds(#[trigger] starts@[i], width, height),
            rng.state == dig(s0, starts@, width, height, k as nat).0,
            diggers@ == dig(s0, starts@, width, height, k as nat).1,
            forall|c: int|
                0 <= c < cells ==> grid@[c] == dig(s0, starts@, width, height, k as nat).2.contains(
                    cell_at(c, width),
                ),
        decreases total - k,
    {
        proof {
            lemma_dig_in_bounds(s0, starts@, width, height, k as nat);
        }
        let j = k % n;
        let d = Direction::random(rng);
        let p = diggers[j].moved(d, width, height);
        diggers.set(j, p);
        proof {
            lemma_cell_index(p, width, height);
        }
        let c: usize = (p.y * width + p.x) as usize;
        grid.set(c, true);
        proof {
            let prev = dig(s0, starts@, width, height, k as nat);
            let next = dig(s0, starts@, width, height, (k + 1) as nat);
            assert(next.2 == prev.2.insert(p));
            assert forall|cc: int| 0 <= cc < cells implies grid@[cc] == next.2.contains(
                cell_at(cc, width),
            ) by {
                lemma_cell_at(cc, width, height);
                if cell_at(cc, width) == p {
                    assert(cc == c);
                }
            }
        }
        k = k + 1;
    }
    grid
}

/// What a generated grid cell is.
#[derive(Clone, Copy, Debug, PartialEq, Eq, Structural)]
pub enum Tile {
    Floor,
    Wall,
    Stairs,
}

pub open spec fn tile_render(t: Tile) -> Render {
    match t {
        Tile::Floor => Render {
            glyph: Some('.'),
            foreground_color: Color { r: 51, g: 101, b: 138 },
            background_color: Some(Color { r: 226, g: 132, b: 19 }),
            z_layer: ZLayer::Ground,
        },
        Tile::Wall => Render {
            glyph: Some('#'),
            foreground_color: Color { r: 226, g: 132, b: 19 },
            background_color: Some(Color { r: 0, g: 0, b: 34 }),
            z_layer: ZLayer::Saturating,
        },
        Tile::Stairs => Render {
            glyph: Some('>'),
            foreground_color: Color { r: 51, g: 101, b: 138 },
            background_color: Some(Color { r: 226, g: 132, b: 19 }),
            z_layer: ZLayer::Saturating,
        },
    }
}

pub open spec fn tile_name(t: Tile) -> Seq<char> {
    match t {
        Tile::Floor => "Floor"@,
        Tile::Wall => "Stone Wall"@,
        Tile::Stairs => "Stairs"@,
    }
}

/// The components a tile entity `i` of kind `t` owned by `level` holds on cell `p`.
pub open spec fn is_tile(w: &GameWorld, i: usize, t: Tile, p: WorldPosition, level: Entity) -> bool {
    &&& w.entities.live(i)
    &&& w.placed().contains_key(i)
    &&& w.placed()[i] == p
    &&& w.parent@.contains_key(i)
    &&& w.parent@[i] == (Parent { entity: level })
    &&& w.render@.contains_key(i)
    &&& w.render@[i] == tile_render(t)
    &&& w.describable@.contains_key(i)
    &&& w.describable@[i].description@ == tile_name(t)
    &&& w.collidable@.contains_key(i) == (t == Tile::Wall)
    &&& w.opaque@.contains_key(i) == (t == Tile::Wall)
    &&& w.climbable@.contains_key(i) == (t == Tile::Stairs)
    &&& !w.movable@.contains_key(i)
    &&& !w.pickupable@.contains_key(i)
    &&& !w.inventoried@.contains_key(i)
    &&& !w.ai_controlled@.contains_key(i)
    &&& !w.player_controlled@.contains_key(i)
    &&& !w.damageable@.contains_key(i)
    &&& !w.armed@.contains_key(i)
    &&& !w.factioned@.contains_key(i)
    &&& !w.level@.contains_key(i)
    &&& !w.sighted@.contains_key(i)
}

proof fn lemma_is_tile_kept(a: &GameWorld, b: &GameWorld, n: nat, i: usize, t: Tile, p: WorldPosition, level: Entity)
    requires
        b.extends(a, n),
        i < n,
        is_tile(a, i, t, p, level),
    ensures
        is_tile(b, i, t, p, level),
{
    assert(b.entities.alive().contains(i) == a.entities.alive().contains(i));
    assert(b.placed().contains_key(i) == a.placed().contains_key(i));
    assert(b.parent@.contains_key(i) == a.parent@.contains_key(i));
    assert(b.render@.contains_key(i) == a.render@.contains_key(i));
    assert(b.describable@.contains_key(i) == a.describable@.contains_key(i));
    assert(b.collidable@.contains_key(i) == a.collidable@.contains_key(i));
    assert(b.opaque@.contains_key(i) == a.opaque@.contains_key(i));
    assert(b.climbable@.contains_key(i) == a.climbable@.contains_key(i));
    assert(b.movable@.contains_key(i) == a.movable@.contains_key(i));
    assert(b.pickupable@.contains_key(i) == a.pickupable@.contains_key(i));
    assert(b.inventoried@.contains_key(i) == a.inventoried@.contains_key(i));
    assert(b.ai_controlled@.contains_key(i) == a.ai_controlled@.contains_key(i));
    assert(b.player_controlled@.contains_key(i) == a.player_controlled@.contains_key(i));
    assert(b.damageable@.contains_key(i) == a.damageable@.contains_key(i));
    assert(b.armed@.contains_key(i) == a.armed@.contains_key(i));
    assert(b.factioned@.contains_key(i) == a.factioned@.contains_key(i));
    assert(b.level@.contains_key(i) == a.level@.contains_key(i));
    assert(b.sighted@.contains_key(i) == a.sighted@.contains_key(i));
}

fn tile_render_of(t: Tile) -> (r: Render)
    ensures
        r == tile_render(t),
{
    match t {
        Tile::Floor => Render {
            glyph: Some('.'),
            foreground_color: Color::mildew(),
            background_color: Some(Color::brown()),
            z_layer: ZLayer::Ground,
        },
        Tile::Wall => Render {
            glyph: Some('#'),
            foreground_color: Color::brown(),
            background_color: Some(Color::black()),
            z_layer: ZLayer::Saturating,
        },
        Tile::Stairs => Render {
            glyph: Some('>'),
            foreground_color: Color::mildew(),
            background_color: Some(Color::brown()),
            z_layer: ZLayer::Saturating,
        },
    }
}

fn tile_name_of(t: Tile) -> (s: String)
    ensures
        s@ == tile_name(t),
{
    match t {
        Tile::Floor => "Floor".to_owned(),
        Tile::Wall => "Stone Wall".to_owned(),
        Tile::Stairs => "Stairs".to_owned(),
    }
}

/// Creates the entity of one tile of `level`.
pub fn spawn_tile(world: &mut GameWorld, level: Entity, t: Tile, p: WorldPosition) -> (e: Entity)
    requires
        old(world).wf(),
        old(world).entities.count() + 1 < usize::MAX,
        in_bounds(p, old(world).parameters.width, old(world).parameters.height),
    ensures
        final(world).wf(),
        e.id == old(world).entities.count(),
        final(world).entities.count() == old(world).entities.count() + 1,
        final(world).extends(old(world), old(world).entities.count()),
        final(world).level == old(world).level,
        is_tile(final(world), e.id, t, p, level),
{
    proof {
        world.entities.lemma_bounds();
    }
    let e = world.create_entity();
    proof {
        world.entities.lemma_bounds();
    }
    world.place(e, p);
    world.parent.insert(e, Parent { entity: level });
    world.render.insert(e, tile_render_of(t));
    world.describable.insert(e, Describable { description: tile_name_of(t) });
    match t {
        Tile::Wall => {
            world.collidable.insert(e, Collidable);
            world.opaque.insert(e, Opaque);
        },
        Tile::Stairs => {
            world.climbable.insert(e, Climbable);
        },
        Tile::Floor => {},
    }
    e
}

/// The cell of the `j`-th tile: tiles are laid out column by column.
pub open spec fn tile_cell(j: int, height: u64) -> WorldPosition {
    WorldPosition { x: (j / (height as int)) as u64, y: (j % (height as int)) as u64 }
}

/// The kind of tile on cell `p`, given the carved grid and the stairs.
pub open spec fn tile_kind(carved: Seq<bool>, width: u64, stairs: Option<WorldPosition>, p: WorldPosition) -> Tile {
    if stairs == Some(p) {
        Tile::Stairs
    } else if carved[cell_index(p, width)] {
        Tile::Floor
    } else {
        Tile::Wall
    }
}

proof fn lemma_tile_cell(j: int, width: u64, height: u64)
    requires
        width >= 1,
        height >= 1,
        0 <= j < width * height,
    ensures
        in_bounds(tile_cell(j, height), width, height),
{
    let h = height as int;
    assert(0 <= j % h < h) by (nonlinear_arith)
        requires
            h >= 1,
    ;
    assert(0 <= j / h < width) by (nonlinear_arith)
        requires
            h >= 1,
            0 <= j < width * h,
    ;
}

/// Creates one tile entity of `level` for every cell of the grid: a wall on
/// each cell that is not carved, floor on the carved ones, and `stairs`.
pub fn spawn_tiles(world: &mut GameWorld, level: Entity, carved: &Vec<bool>, stairs: Option<WorldPosition>)
    requires
        old(world).wf(),
        carved@.len() == old(world).parameters.width * old(world).parameters.height,
        old(world).entities.count() + old(world).parameters.width * old(world).parameters.height + 1
            < usize::MAX,
    ensures
        final(world).wf(),
        final(world).entities.count() == old(world).entities.count() + old(world).parameters.width
            * old(world).parameters.height,
        final(world).extends(old(world), old(world).entities.count()),
        final(world).level == old(world).level,
        forall|j: int|
            0 <= j < old(world).parameters.width * old(world).parameters.height ==> is_tile(
                final(world),
                (old(world).entities.count() + j) as usize,
                tile_kind(
                    carved@,
                    old(world).parameters.width,
                    stairs,
                    #[trigger] tile_cell(j, old(world).parameters.height),
                ),
                tile_cell(j, old(world).parameters.height),
                level,
            ),
{
    let width = world.parameters.width;
    let height = world.parameters.height;
    let cells: usize = (width * height) as usize;
    let ghost n0 = old(world).entities.count();
    let mut j: usize = 0;
    while j < cells
        invariant
            0 <= j <= cells,
            cells == width * height,
            width == old(world).parameters.width,
            height == old(world).parameters.height,
            carved@.len() == cells,
            n0 + cells + 1 < usize::MAX,
            world.wf(),
            world.entities.count() == n0 + j,
            world.extends(old(world), n0),
            world.level == old(world).level,
            forall|k: int|
                0 <= k < j ==> is_tile(
                    world,
                    (n0 + k) as usize,
                    tile_kind(carved@, width, stairs, #[trigger] tile_cell(k, height)),
                    tile_cell(k, height),
                    level,
                ),
        decreases cells - j,
    {
        proof {
            lemma_tile_cell(j as int, width, height);
        }
        let p = WorldPosition { x: (j as u64) / height, y: (j as u64) % height };
        proof {
            lemma_cell_index(p, width, height);
        }
        let t = if stairs == Some(p) {
            Tile::Stairs
        } else if carved[(p.y * width + p.x) as usize] {
            Tile::Floor
        } else {
            Tile::Wall
        };
        let ghost before = *world;
        spawn_tile(world, level, t, p);
        proof {
            assert forall|k: int| 0 <= k < j + 1 implies is_tile(
                world,
                (n0 + k) as usize,
                tile_kind(carved@, width, stairs, #[trigger] tile_cell(k, height)),
                tile_cell(k, height),
                level,
            ) by {
                if k < j {
                    lemma_is_tile_kept(
                        &before,
                        world,
                        before.entities.count(),
                        (n0 + k) as usize,
                        tile_kind(carved@, width, stairs, tile_cell(k, height)),
                        tile_cell(k, height),
                        level,
                    );
                } else {
                    assert(p == tile_cell(k, height));
                    assert(t == tile_kind(carved@, width, stairs, p));
                }
            }
        }
        j = j + 1;
    }
}

/// What is placed on the carved cells besides the stairs.
#[derive(Clone, Copy, Debug, PartialEq, Eq, Structural)]
pub enum Spawn {
    Player,
    Gold,
    Monster,
}

pub open spec fn spawn_render(k: Spawn) -> Render {
    match k {
        Spawn::Player => Render {
            glyph: Some('@'),
            foreground_color: Color { r: 0, g: 0, b: 34 },
            background_color: None,
            z_layer: ZLayer::Creature,
        },
        Spawn::Gold => Render {
            glyph: Some('$'),
            foreground_color: Color { r: 246, g: 174, b: 45 },
            background_color: None,
            z_layer: ZLayer::Item,
        },
        Spawn::Monster => Render {
            glyph: Some('m'),
            foreground_color: Color { r: 107, g: 39, b: 55 },
            background_color: None,
            z_layer: ZLayer::Creature,
        },
    }
}

pub open spec fn spawn_name(k: Spawn) -> Seq<char> {
    match k {
        Spawn::Player => "Player"@,
        Spawn::Gold => "Gold"@,
        Spawn::Monster => "Monster"@,
    }
}

/// The components that a spawned entity `i` of kind `k` holds on cell `p`.
/// Gold and monsters belong to `level`; the player belongs to no level, so
/// that it outlives the level it is on.
pub open spec fn is_spawned(w: &GameWorld, i: usize, k: Spawn, p: WorldPosition, level: Entity) -> bool {
    let creature = k != Spawn::Gold;
    &&& w.entities.live(i)
    &&& w.placed().contains_key(i)
    &&& w.placed()[i] == p
    &&& w.render@.contains_key(i)
    &&& w.render@[i] == spawn_render(k)
    &&& w.describable@.contains_key(i)
    &&& w.describable@[i].description@ == spawn_name(k)
    &&& w.parent@.contains_key(i) == (k != Spawn::Player)
    &&& (k != Spawn::Player ==> w.parent@[i] == Parent { entity: level })
    &&& w.pickupable@.contains_key(i) == (k == Spawn::Gold)
    &&& w.player_controlled@.contains_key(i) == (k == Spawn::Player)
    &&& w.ai_controlled@.contains_key(i) == (k == Spawn::Monster)
    &&& w.sighted@.contains_key(i) == (k == Spawn::Player)
    &&& (k == Spawn::Player ==> marked(w.sighted@[i].seen@) == Set::<usize>::empty()
        && marked(w.sighted@[i].seen_recently@) == Set::<usize>::empty())
    &&& w.movable@.contains_key(i) == creature
    &&& w.inventoried@.contains_key(i) == creature
    &&& w.collidable@.contains_key(i) == creature
    &&& w.factioned@.contains_key(i) == creature
    &&& w.damageable@.contains_key(i) == creature
    &&& w.armed@.contains_key(i) == creature
    &&& (creature ==> {
        &&& w.movable@[i] == Movable { unprocessed_move: None }
        &&& w.factioned@[i] == Factioned {
            faction: if k == Spawn::Player { Faction::Player } else { Faction::Enemy },
        }
        &&& w.damageable@[i] == if k == Spawn::Player {
            Damageable { health: 100, max_health: 100 }
        } else {
            Damageable { health: 10, max_health: 10 }
        }
        &&& w.armed@[i] == Armed {
            damage: if k == Spawn::Player { 5 } else { 1 },
            targetting: None,
        }
    })
    &&& !w.opaque@.contains_key(i)
    &&& !w.climbable@.contains_key(i)
    &&& !w.level@.contains_key(i)
}

/// Creates the player, a piece of gold or a monster on cell `p`.
pub fn spawn(world: &mut GameWorld, level: Entity, k: Spawn, p: WorldPosition) -> (e: Entity)
    requires
        old(world).wf(),
        old(world).entities.count() + 1 < usize::MAX,
        in_bounds(p, old(world).parameters.width, old(world).parameters.height),
    ensures
        final(world).wf(),
        e.id == old(world).entities.count(),
        final(world).entities.count() == old(world).entities.count() + 1,
        final(world).extends(old(world), old(world).entities.count()),
        final(world).level == old(world).level,
        is_spawned(final(world), e.id, k, p, level),
{
    proof {
        world.entities.lemma_bounds();
    }
    let e = world.create_entity();
    world.place(e, p);
    match k {
        Spawn::Player => {
            world.render.insert(
                e,
                Render {
                    glyph: Some('@'),
                    foreground_color: Color::black(),
                    background_color: None,
                    z_layer: ZLayer::Creature,
                },
            );
            world.describable.insert(e, Describable { description: "Player".to_owned() });
            world.player_controlled.insert(e, PlayerControlled);
            world.movable.insert(e, Movable { unprocessed_move: None });
            world.inventoried.insert(e, Inventoried);
            world.factioned.insert(e, Factioned { faction: Faction::Player });
            world.collidable.insert(e, Collidable);
            world.damageable.insert(e, Damageable { health: 100, max_health: 100 });
            world.armed.insert(e, Armed { damage: 5, targetting: None });
            world.sighted.insert(e, Sighted::new());
        },
        Spawn::Gold => {
            world.parent.insert(e, Parent { entity: level });
            world.render.insert(
                e,
                Render {
                    glyph: Some('$'),
                    foreground_color: Color::yellow(),
                    background_color: None,
                    z_layer: ZLayer::Item,
                },
            );
            world.describable.insert(e, Describable { description: "Gold".to_owned() });
            world.pickupable.insert(e, Pickupable);
        },
        Spawn::Monster => {
            world.parent.insert(e, Parent { entity: level });
            world.render.insert(
                e,
                Render {
                    glyph: Some('m'),
                    foreground_color: Color::deep_red(),
                    background_color: None,
                    z_layer: ZLayer::Creature,
                },
            );
            world.describable.insert(e, Describable { description: "Monster".to_owned() });
            world.ai_controlled.insert(e, AIControlled);
            world.movable.insert(e, Movable { unprocessed_move: None });
            world.inventoried.insert(e, Inventoried);
            world.factioned.insert(e, Factioned { faction: Faction::Enemy });
            world.collidable.insert(e, Collidable);
            world.damageable.insert(e, Damageable { health: 10, max_health: 10 });
            world.armed.insert(e, Armed { damage: 1, targetting: None });
        },
    }
    e
}

/// Entities `base`, `base + 1`, ... are the tiles of `level`, one per cell
/// in column order, of the kinds that `carved` and `stairs` give.
pub open spec fn tiles_laid(w: &GameWorld, base: nat, carved: Seq<bool>, stairs: Option<WorldPosition>, level: Entity) -> bool {
    forall|j: int|
        0 <= j < w.parameters.width * w.parameters.height ==> is_tile(
            w,
            (base + j) as usize,
            tile_kind(carved, w.parameters.width, stairs, #[trigger] tile_cell(j, w.parameters.height)),
            tile_cell(j, w.parameters.height),
            level,
        )
}

/// Number of diggers that carve a level.
pub const DIGGERS: usize = 3;

/// Rounds of steps the diggers take.
pub const DIG_ROUNDS: usize = 1000;

/// Pieces of gold placed on a level.
pub const GOLD_PIECES: usize = 10;

/// Monsters placed on a level.
pub const MONSTERS: usize = 5;

/// The generator state after drawing `n` starting cells from `state`, and the cells
/// drawn: for each, first the column and then the row.
pub open spec fn draw_starts(state: u64, width: u64, height: u64, n: nat) -> (u64, Seq<WorldPosition>)
    decreases n,
{
    if n == 0 {
        (state, Seq::empty())
    } else {
        let (s, cells) = draw_starts(state, width, height, (n - 1) as nat);
        let x = pick(0, (width - 1) as u64, draw_of(s));
        let y = pick(0, (height - 1) as u64, draw_of(next_state(s)));
        (next_state(next_state(s)), cells.push(WorldPosition { x, y }))
    }
}

/// The carved cells of a level generated from generator state `state`,
/// slot `y * width + x` for cell `(x, y)`.
pub open spec fn carved_layout(state: u64, width: u64, height: u64) -> Seq<bool> {
    let (s, starts) = draw_starts(state, width, height, DIGGERS as nat);
    let carved = dig(s, starts, width, height, (DIG_ROUNDS * DIGGERS) as nat).2;
    Seq::new((width * height) as nat, |c: int| carved.contains(cell_at(c, width)))
}

/// `p` is the live player-controlled entity with the greatest id.
pub open spec fn last_player(w: &GameWorld, p: usize) -> bool {
    &&& w.entities.live(p)
    &&& w.player_controlled@.contains_key(p)
    &&& forall|k: usize| p < k ==> !(w.entities.live(k) && #[trigger] w.player_controlled@.contains_key(k))
}

/// Some live entity is player-controlled.
pub open spec fn has_player(w: &GameWorld) -> bool {
    exists|p: usize| w.entities.live(p) && #[trigger] w.player_controlled@.contains_key(p)
}

/// The last live player-controlled entity, if there is one.
pub fn find_player(world: &GameWorld) -> (r: Option<Entity>)
    requires
        world.wf(),
    ensures
        r is Some ==> last_player(world, r->0.id),
        r is None ==> !has_player(world),
{
    let n = world.entities.len();
    let mut found: Option<Entity> = None;
    let mut i: usize = 0;
    proof {
        world.entities.lemma_bounds();
    }
    while i < n
        invariant
            0 <= i <= n,
            n == world.entities.count(),
            world.entities.wf(),
            forall|k: usize| world.entities.alive().contains(k) ==> k < world.entities.count(),
            found is Some ==> found->0.id < i && world.entities.live(found->0.id)
                && world.player_controlled@.contains_key(found->0.id) && forall|k: usize|
                found->0.id < k < i ==> !(world.entities.live(k) && #[trigger] world.player_controlled@.contains_key(k)),
            found is None ==> forall|k: usize|
                k < i ==> !(world.entities.live(k) && #[trigger] world.player_controlled@.contains_key(k)),
        decreases n - i,
    {
        let e = Entity { id: i };
        if world.entities.is_alive(e) && !world.entities.is_doomed(e) && world.player_controlled.contains(e) {
            found = Some(e);
        }
        i = i + 1;
    }
    found
}

/// Everything about entity `i` is the same in `a` and `b`.
pub open spec fn same_entity(a: &GameWorld, b: &GameWorld, i: usize) -> bool {
    &&& a.entities.alive().contains(i) == b.entities.alive().contains(i)
    &&& a.entities.doomed().contains(i) == b.entities.doomed().contains(i)
    &&& same_at(a.placed(), b.placed(), i)
    &&& same_at(a.world_position@, b.world_position@, i)
    &&& same_at(a.movable@, b.movable@, i)
    &&& same_at(a.collidable@, b.collidable@, i)
    &&& same_at(a.opaque@, b.opaque@, i)
    &&& same_at(a.pickupable@, b.pickupable@, i)
    &&& same_at(a.climbable@, b.climbable@, i)
    &&& same_at(a.inventoried@, b.inventoried@, i)
    &&& same_at(a.ai_controlled@, b.ai_controlled@, i)
    &&& same_at(a.player_controlled@, b.player_controlled@, i)
    &&& same_at(a.damageable@, b.damageable@, i)
    &&& same_at(a.armed@, b.armed@, i)
    &&& same_at(a.factioned@, b.factioned@, i)
    &&& same_at(a.level@, b.level@, i)
    &&& same_at(a.render@, b.render@, i)
    &&& same_at(a.describable@, b.describable@, i)
    &&& same_at(a.sighted@, b.sighted@, i)
    &&& same_at(a.parent@, b.parent@, i)
}

/// `a` and `b` agree on key `i`.
pub open spec fn same_at<T>(a: Map<usize, T>, b: Map<usize, T>, i: usize) -> bool {
    a.contains_key(i) == b.contains_key(i) && (a.contains_key(i) ==> a[i] == b[i])
}

proof fn lemma_extends_same(a: &GameWorld, b: &GameWorld, n: nat, i: usize)
    requires
        b.extends(a, n),
        i < n,
    ensures
        same_entity(a, b, i),
{
    assert(b.entities.alive().contains(i) == a.entities.alive().contains(i));
    assert(b.placed().contains_key(i) == a.placed().contains_key(i));
    assert(b.world_position@.contains_key(i) == a.world_position@.contains_key(i));
    assert(b.parent@.contains_key(i) == a.parent@.contains_key(i));
    assert(b.render@.contains_key(i) == a.render@.contains_key(i));
    assert(b.describable@.contains_key(i) == a.describable@.contains_key(i));
    assert(b.collidable@.contains_key(i) == a.collidable@.contains_key(i));
    assert(b.opaque@.contains_key(i) == a.opaque@.contains_key(i));
    assert(b.climbable@.contains_key(i) == a.climbable@.contains_key(i));
    assert(b.movable@.contains_key(i) == a.movable@.contains_key(i));
    assert(b.pickupable@.contains_key(i) == a.pickupable@.contains_key(i));
    assert(b.inventoried@.contains_key(i) == a.inventoried@.contains_key(i));
    assert(b.ai_controlled@.contains_key(i) == a.ai_controlled@.contains_key(i));
    assert(b.player_controlled@.contains_key(i) == a.player_controlled@.contains_key(i));
    assert(b.damageable@.contains_key(i) == a.damageable@.contains_key(i));
    assert(b.armed@.contains_key(i) == a.armed@.contains_key(i));
    assert(b.factioned@.contains_key(i) == a.factioned@.contains_key(i));
    assert(b.level@.contains_key(i) == a.level@.contains_key(i));
    assert(b.sighted@.contains_key(i) == a.sighted@.contains_key(i));
}

proof fn lemma_same_keeps(a: &GameWorld, b: &GameWorld, i: usize, t: Tile, k: Spawn, p: WorldPosition, level: Entity)
    requires
        same_entity(a, b, i),
    ensures
        is_tile(a, i, t, p, level) ==> is_tile(b, i, t, p, level),
        is_spawned(a, i, k, p, level) ==> is_spawned(b, i, k, p, level),
{
}

/// Carved cells in column order, among the first `j` slots of that order.
pub open spec fn open_prefix(carved: Seq<bool>, width: u64, height: u64, j: nat) -> Seq<WorldPosition>
    decreases j,
{
    if j == 0 {
        Seq::empty()
    } else {
        let prev = open_prefix(carved, width, height, (j - 1) as nat);
        let p = tile_cell(j - 1, height);
        if carved[cell_index(p, width)] {
            prev.push(p)
        } else {
            prev
        }
    }
}

/// `s` without the elements equal to `x`'s content.
pub open spec fn without(s: Seq<WorldPosition>, x: Option<WorldPosition>) -> Seq<WorldPosition>
    decreases s.len(),
{
    if s.len() == 0 {
        s
    } else {
        let prev = without(s.drop_last(), x);
        if x == Some(s.last()) {
            prev
        } else {
            prev.push(s.last())
        }
    }
}

/// Taking `k` cells out of `pool`, each at the index the generator draws;
/// gives the generator state, what is left, and the cells taken in order.
pub open spec fn picks(state: u64, pool: Seq<WorldPosition>, k: nat) -> (u64, Seq<WorldPosition>, Seq<WorldPosition>)
    decreases k,
{
    if k == 0 {
        (state, pool, Seq::empty())
    } else {
        let (s, rest, taken) = picks(state, pool, (k - 1) as nat);
        if rest.len() == 0 {
            (s, rest, taken)
        } else {
            let i = index_of(draw_of(s), rest.len());
            (next_state(s), rest.remove(i), taken.push(rest[i]))
        }
    }
}

/// What is placed on the `j`-th cell taken: the player, then the gold, then the monsters.
pub open spec fn spawn_kind(j: int) -> Spawn {
    if j == 0 {
        Spawn::Player
    } else if j <= GOLD_PIECES {
        Spawn::Gold
    } else {
        Spawn::Monster
    }
}

/// The generator state once the caves of a level generated from `state` are carved.
pub open spec fn carved_state(state: u64, width: u64, height: u64) -> u64 {
    let (s, starts) = draw_starts(state, width, height, DIGGERS as nat);
    dig(s, starts, width, height, (DIG_ROUNDS * DIGGERS) as nat).0
}

/// The carved cells of a level generated from `state`, in column order.
pub open spec fn carved_cells(state: u64, width: u64, height: u64) -> Seq<WorldPosition> {
    open_prefix(carved_layout(state, width, height), width, height, (width * height) as nat)
}

/// The stairs of a level generated from `state`: a carved cell drawn after carving.
pub open spec fn stairs_cell(state: u64, width: u64, height: u64) -> Option<WorldPosition> {
    let cells = carved_cells(state, width, height);
    if cells.len() > 0 {
        Some(cells[index_of(draw_of(carved_state(state, width, height)), cells.len())])
    } else {
        None
    }
}

/// The cells on which the player, the gold and the monsters of a level
/// generated from `state` are placed, in that order: drawn without
/// replacement from the carved cells other than the stairs.
pub open spec fn placements(state: u64, width: u64, height: u64) -> Seq<WorldPosition> {
    let cells = carved_cells(state, width, height);
    let s = carved_state(state, width, height);
    let after_stairs = if cells.len() > 0 { next_state(s) } else { s };
    picks(after_stairs, without(cells, stairs_cell(state, width, height)), (1 + GOLD_PIECES + MONSTERS) as nat).2
}

/// The layout of level `level` generated into world `b` from world `a`
/// with generator state `state`.
pub open spec fn level_laid(a: &GameWorld, b: &GameWorld, state: u64, level: Entity) -> bool {
    let width = a.parameters.width;
    let height = a.parameters.height;
    let n0 = a.entities.count();
    let tiles = width * height;
    let cells = placements(state, width, height);
    let reused = if has_player(a) { 1int } else { 0int };
    let spawned = if cells.len() > reused { cells.len() - reused } else { 0int };
    &&& tiles_laid(b, n0, carved_layout(state, width, height), stairs_cell(state, width, height), level)
    &&& b.entities.count() == n0 + tiles + spawned
    &&& forall|j: int|
        reused <= j < cells.len() ==> #[trigger] is_spawned(
            b,
            (n0 + tiles + j - reused) as usize,
            spawn_kind(j),
            cells[j],
            level,
        )
    &&& forall|p: usize|
        #[trigger] last_player(a, p) && cells.len() > 0 ==> b.placed().contains_key(p) && b.placed()[p] == cells[0]
            && b.world_position@[p] == cells[0]
    &&& forall|i: usize|
        i < n0 && i != level.id && !(last_player(a, i) && cells.len() > 0) ==> #[trigger] same_entity(a, b, i)
}

proof fn lemma_open_prefix(carved: Seq<bool>, width: u64, height: u64, j: nat)
    requires
        width >= 1,
        height >= 1,
        j <= width * height,
        carved.len() == width * height,
    ensures
        forall|k: int|
            0 <= k < open_prefix(carved, width, height, j).len() ==> in_bounds(
                #[trigger] open_prefix(carved, width, height, j)[k],
                width,
                height,
            ) && carved[cell_index(open_prefix(carved, width, height, j)[k], width)],
    decreases j,
{
    if j > 0 {
        lemma_open_prefix(carved, width, height, (j - 1) as nat);
        lemma_tile_cell(j - 1, width, height);
        lemma_cell_index(tile_cell(j - 1, height), width, height);
        let prev = open_prefix(carved, width, height, (j - 1) as nat);
        let cur = open_prefix(carved, width, height, j);
        assert forall|k: int| 0 <= k < cur.len() implies in_bounds(#[trigger] cur[k], width, height)
            && carved[cell_index(cur[k], width)] by {
            if k < prev.len() {
                assert(cur[k] == prev[k]);
            }
        }
    }
}

proof fn lemma_without_in_bounds(s: Seq<WorldPosition>, x: Option<WorldPosition>, width: u64, height: u64)
    requires
        forall|k: int| 0 <= k < s.len() ==> in_bounds(#[trigger] s[k], width, height),
    ensures
        forall|k: int| 0 <= k < without(s, x).len() ==> in_bounds(#[trigger] without(s, x)[k], width, height),
    decreases s.len(),
{
    if s.len() > 0 {
        let prev = without(s.drop_last(), x);
        assert forall|k: int| 0 <= k < s.drop_last().len() implies in_bounds(#[trigger] s.drop_last()[k], width, height) by {
            assert(s.drop_last()[k] == s[k]);
        }
        lemma_without_in_bounds(s.drop_last(), x, width, height);
        let cur = without(s, x);
        assert forall|k: int| 0 <= k < cur.len() implies in_bounds(#[trigger] cur[k], width, height) by {
            if k < prev.len() {
                assert(cur[k] == prev[k]);
            } else {
                assert(cur[k] == s[s.len() - 1]);
            }
        }
    }
}

proof fn lemma_last_player_unique(w: &GameWorld, p: usize, q: usize)
    requires
        last_player(w, p),
        last_player(w, q),
    ensures
        p == q,
{
    if p < q {
        assert(!(w.entities.live(q) && w.player_controlled@.contains_key(q)));
    } else if q < p {
        assert(!(w.entities.live(p) && w.player_controlled@.contains_key(p)));
    }
}

proof fn lemma_dig_keeps_starts(state: u64, starts: Seq<WorldPosition>, width: u64, height: u64, moves: nat)
    ensures
        forall|p: WorldPosition| starts.contains(p) ==> #[trigger] dig(state, starts, width, height, moves).2.contains(p),
    decreases moves,
{
    if moves > 0 {
        lemma_dig_keeps_starts(state, starts, width, height, (moves - 1) as nat);
        assert forall|p: WorldPosition| starts.contains(p) implies #[trigger] dig(state, starts, width, height, moves).2.contains(p) by {
            assert(dig(state, starts, width, height, (moves - 1) as nat).2.contains(p));
        }
    } else {
        assert forall|p: WorldPosition| starts.contains(p) implies #[trigger] dig(state, starts, width, height, moves).2.contains(p) by {
            assert(starts.to_set().contains(p));
        }
    }
}

proof fn lemma_draw_starts_len(state: u64, width: u64, height: u64, n: nat)
    ensures
        draw_starts(state, width, height, n).1.len() == n,
    decreases n,
{
    if n > 0 {
        lemma_draw_starts_len(state, width, height, (n - 1) as nat);
    }
}

proof fn lemma_draw_starts_in_bounds(state: u64, width: u64, height: u64, n: nat)
    requires
        width >= 1,
        height >= 1,
    ensures
        forall|k: int|
            0 <= k < draw_starts(state, width, height, n).1.len() ==> in_bounds(
                #[trigger] draw_starts(state, width, height, n).1[k],
                width,
                height,
            ),
    decreases n,
{
    if n > 0 {
        lemma_draw_starts_in_bounds(state, width, height, (n - 1) as nat);
        let (s, cells) = draw_starts(state, width, height, (n - 1) as nat);
        let cur = draw_starts(state, width, height, n).1;
        assert forall|k: int| 0 <= k < cur.len() implies in_bounds(#[trigger] cur[k], width, height) by {
            if k < cells.len() {
                assert(cur[k] == cells[k]);
            }
        }
    }
}

/// The slot of cell `p` in column order.
pub open spec fn column_slot(p: WorldPosition, height: u64) -> int {
    p.x * height + p.y
}

proof fn lemma_column_slot(p: WorldPosition, width: u64, height: u64)
    requires
        in_bounds(p, width, height),
    ensures
        0 <= column_slot(p, height) < width * height,
        tile_cell(column_slot(p, height), height) == p,
{
    assert(0 <= p.x * height) by (nonlinear_arith);
    assert(p.x * height + p.y < width * height) by (nonlinear_arith)
        requires
            p.x < width,
            p.y < height,
    ;
    lemma_fundamental_div_mod_converse(column_slot(p, height), height as int, p.x as int, p.y as int);
}

proof fn lemma_open_prefix_has(carved: Seq<bool>, width: u64, height: u64, j: nat, slot: int)
    requires
        0 <= slot < j,
        carved[cell_index(tile_cell(slot, height), width)],
    ensures
        open_prefix(carved, width, height, j).contains(tile_cell(slot, height)),
    decreases j,
{
    let prev = open_prefix(carved, width, height, (j - 1) as nat);
    if slot < j - 1 {
        lemma_open_prefix_has(carved, width, height, (j - 1) as nat, slot);
        let k = choose|k: int| 0 <= k < prev.len() && prev[k] == tile_cell(slot, height);
        let cur = open_prefix(carved, width, height, j);
        assert(cur[k] == prev[k]);
    } else {
        let cur = open_prefix(carved, width, height, j);
        assert(cur[cur.len() - 1] == tile_cell(slot, height));
    }
}

/// A generated level always has stairs, on a carved cell of the grid: the
/// cells where the diggers start are carved, so some cell is.
pub proof fn lemma_stairs_on_carved_cell(state: u64, width: u64, height: u64)
    requires
        width >= 1,
        height >= 1,
        width * height <= usize::MAX,
    ensures
        stairs_cell(state, width, height) is Some,
        in_bounds(stairs_cell(state, width, height)->0, width, height),
        carved_layout(state, width, height)[cell_index(stairs_cell(state, width, height)->0, width)],
{
    let (s, starts) = draw_starts(state, width, height, DIGGERS as nat);
    lemma_draw_starts_len(state, width, height, DIGGERS as nat);
    lemma_draw_starts_in_bounds(state, width, height, DIGGERS as nat);
    let p = starts[0];
    assert(starts.contains(p));
    lemma_dig_keeps_starts(s, starts, width, height, (DIG_ROUNDS * DIGGERS) as nat);
    let carved = carved_layout(state, width, height);
    lemma_cell_index(p, width, height);
    assert(carved[cell_index(p, width)]);
    lemma_column_slot(p, width, height);
    lemma_open_prefix_has(carved, width, height, (width * height) as nat, column_slot(p, height));
    let cells = carved_cells(state, width, height);
    assert(cells.len() > 0);
    lemma_open_prefix(carved, width, height, (width * height) as nat);
    lemma_index_of(draw_of(carved_state(state, width, height)), cells.len());
    let i = index_of(draw_of(carved_state(state, width, height)), cells.len());
    assert(in_bounds(cells[i], width, height) && carved[cell_index(cells[i], width)]);
}

proof fn lemma_slot_of_tile(j: int, width: u64, height: u64)
    requires
        width >= 1,
        height >= 1,
        0 <= j < width * height,
    ensures
        column_slot(tile_cell(j, height), height) == j,
{
    lemma_tile_cell(j, width, height);
    lemma_fundamental_div_mod(j, height as int);
    let h = height as int;
    assert(0 <= j % h < h && 0 <= j / h < width) by (nonlinear_arith)
        requires
            h >= 1,
            0 <= j < width * h,
    ;
    assert(tile_cell(j, height).x as int == j / h);
    assert(tile_cell(j, height).y as int == j % h);
    assert((j / h) * h == h * (j / h)) by (nonlinear_arith);
}

proof fn lemma_open_prefix_sorted(carved: Seq<bool>, width: u64, height: u64, j: nat)
    requires
        width >= 1,
        height >= 1,
        j <= width * height,
    ensures
        forall|k: int|
            0 <= k < open_prefix(carved, width, height, j).len() ==> 0 <= column_slot(
                #[trigger] open_prefix(carved, width, height, j)[k],
                height,
            ) < j,
        forall|k: int, l: int|
            0 <= k < l < open_prefix(carved, width, height, j).len() ==> column_slot(
                #[trigger] open_prefix(carved, width, height, j)[k],
                height,
            ) < column_slot(#[trigger] open_prefix(carved, width, height, j)[l], height),
    decreases j,
{
    if j > 0 {
        lemma_open_prefix_sorted(carved, width, height, (j - 1) as nat);
        lemma_slot_of_tile(j - 1, width, height);
        let prev = open_prefix(carved, width, height, (j - 1) as nat);
        let cur = open_prefix(carved, width, height, j);
        assert forall|k: int| 0 <= k < cur.len() implies 0 <= column_slot(#[trigger] cur[k], height) < j by {
            if k < prev.len() {
                assert(cur[k] == prev[k]);
            }
        }
        assert forall|k: int, l: int| 0 <= k < l < cur.len() implies column_slot(#[trigger] cur[k], height) < column_slot(
            #[trigger] cur[l],
            height,
        ) by {
            assert(cur[k] == prev[k]);
            if l < prev.len() {
                assert(cur[l] == prev[l]);
            }
        }
    }
}

proof fn lemma_without(s: Seq<WorldPosition>, x: Option<WorldPosition>)
    requires
        s.no_duplicates(),
    ensures
        without(s, x).no_duplicates(),
        forall|k: int| 0 <= k < without(s, x).len() ==> s.contains(#[trigger] without(s, x)[k]) && x != Some(
            without(s, x)[k],
        ),
        forall|c: WorldPosition| #[trigger] s.contains(c) && x != Some(c) ==> without(s, x).contains(c),
    decreases s.len(),
{
    if s.len() > 0 {
        let d = s.drop_last();
        assert forall|a: int, b: int| 0 <= a < b < d.len() implies d[a] != d[b] by {
            assert(d[a] == s[a] && d[b] == s[b]);
        }
        lemma_without(d, x);
        let prev = without(d, x);
        let cur = without(s, x);
        let last = s.last();
        assert(!d.contains(last)) by {
            if d.contains(last) {
                let k = choose|k: int| 0 <= k < d.len() && d[k] == last;
                assert(s[k] == s[s.len() - 1]);
            }
        }
        assert forall|k: int| 0 <= k < cur.len() implies s.contains(#[trigger] cur[k]) && x != Some(cur[k]) by {
            if k < prev.len() {
                assert(cur[k] == prev[k]);
                let m = choose|m: int| 0 <= m < d.len() && d[m] == prev[k];
                assert(s[m] == d[m]);
            } else {
                assert(s[s.len() - 1] == last);
            }
        }
        assert forall|c: WorldPosition| #[trigger] s.contains(c) && x != Some(c) implies cur.contains(c) by {
            let m = choose|m: int| 0 <= m < s.len() && s[m] == c;
            if m < s.len() - 1 {
                assert(d[m] == c);
                assert(d.contains(c));
                let q = choose|q: int| 0 <= q < prev.len() && prev[q] == c;
                assert(cur[q] == c);
            } else {
                assert(cur[cur.len() - 1] == c);
            }
        }
        if x != Some(last) {
            assert forall|a: int, b: int| 0 <= a < b < cur.len() implies cur[a] != cur[b] by {
                if b == cur.len() - 1 {
                    assert(cur[a] == prev[a]);
                    let m = choose|m: int| 0 <= m < d.len() && d[m] == prev[a];
                } else {
                    assert(cur[a] == prev[a] && cur[b] == prev[b]);
                }
            }
        }
    }
}

proof fn lemma_picks(state: u64, pool: Seq<WorldPosition>, k: nat)
    requires
        pool.no_duplicates(),
    ensures
        ({
            let (s, rest, taken) = picks(state, pool, k);
            &&& taken.no_duplicates()
            &&& rest.no_duplicates()
            &&& taken.len() + rest.len() == pool.len()
            &&& taken.len() == if k < pool.len() { k as int } else { pool.len() as int }
            &&& forall|j: int| 0 <= j < taken.len() ==> pool.contains(#[trigger] taken[j]) && !rest.contains(taken[j])
            &&& forall|j: int| 0 <= j < rest.len() ==> pool.contains(#[trigger] rest[j])
        }),
    decreases k,
{
    if k > 0 {
        lemma_picks(state, pool, (k - 1) as nat);
        let (s, rest, taken) = picks(state, pool, (k - 1) as nat);
        if rest.len() > 0 {
            lemma_index_of(draw_of(s), rest.len());
            let i = index_of(draw_of(s), rest.len());
            let rest2 = rest.remove(i);
            let taken2 = taken.push(rest[i]);
            assert forall|j: int| 0 <= j < rest2.len() implies pool.contains(#[trigger] rest2[j]) && rest2[j] != rest[i] by {
                if j < i {
                    assert(rest2[j] == rest[j]);
                } else {
                    assert(rest2[j] == rest[j + 1]);
                }
            }
            assert forall|a: int, b: int| 0 <= a < b < rest2.len() implies rest2[a] != rest2[b] by {
                let oa = if a < i { a } else { a + 1 };
                let ob = if b < i { b } else { b + 1 };
                assert(rest2[a] == rest[oa] && rest2[b] == rest[ob]);
            }
            assert forall|j: int| 0 <= j < taken2.len() implies pool.contains(#[trigger] taken2[j]) && !rest2.contains(taken2[j]) by {
                if j < taken.len() {
                    assert(taken2[j] == taken[j]);
                    if rest2.contains(taken2[j]) {
                        let q = choose|q: int| 0 <= q < rest2.len() && rest2[q] == taken2[j];
                        let oq = if q < i { q } else { q + 1 };
                        assert(rest2[q] == rest[oq]);
                    }
                } else {
                    if rest2.contains(rest[i]) {
                        let q = choose|q: int| 0 <= q < rest2.len() && rest2[q] == rest[i];
                    }
                }
            }
            assert forall|a: int, b: int| 0 <= a < b < taken2.len() implies taken2[a] != taken2[b] by {
                if b == taken.len() {
                    assert(taken2[a] == taken[a]);
                    assert(!rest.contains(taken[a]));
                } else {
                    assert(taken2[a] == taken[a] && taken2[b] == taken[b]);
                }
            }
        }
    }
}

/// The cells drawn for the player, the gold and the monsters of a generated
/// level are distinct carved cells of the grid other than the stairs, as
/// many as those free cells, up to one player, ten pieces of gold and five
/// monsters.
pub proof fn lemma_placements(state: u64, width: u64, height: u64)
    requires
        width >= 1,
        height >= 1,
        width * height <= usize::MAX,
    ensures
        ({
            let cells = placements(state, width, height);
            let free = without(carved_cells(state, width, height), stairs_cell(state, width, height));
            &&& cells.no_duplicates()
            &&& cells.len() == if free.len() < 1 + GOLD_PIECES + MONSTERS { free.len() as int } else { (1
                + GOLD_PIECES + MONSTERS) as int }
            &&& forall|k: int|
                0 <= k < cells.len() ==> in_bounds(#[trigger] cells[k], width, height) && carved_layout(
                    state,
                    width,
                    height,
                )[cell_index(cells[k], width)] && stairs_cell(state, width, height) != Some(cells[k])
        }),
{
    let carved = carved_layout(state, width, height);
    let all = carved_cells(state, width, height);
    lemma_open_prefix(carved, width, height, (width * height) as nat);
    lemma_open_prefix_sorted(carved, width, height, (width * height) as nat);
    assert forall|a: int, b: int| 0 <= a < b < all.len() implies all[a] != all[b] by {
        assert(column_slot(all[a], height) < column_slot(all[b], height));
    }
    let stairs = stairs_cell(state, width, height);
    lemma_without(all, stairs);
    let free = without(all, stairs);
    let s = carved_state(state, width, height);
    let after_stairs = if all.len() > 0 { next_state(s) } else { s };
    lemma_picks(after_stairs, free, (1 + GOLD_PIECES + MONSTERS) as nat);
    let cells = placements(state, width, height);
    assert forall|k: int| 0 <= k < cells.len() implies in_bounds(#[trigger] cells[k], width, height) && carved[cell_index(
        cells[k],
        width,
    )] && stairs != Some(cells[k]) by {
        assert(free.contains(cells[k]));
        let q = choose|q: int| 0 <= q < free.len() && free[q] == cells[k];
        assert(all.contains(free[q]));
        let m = choose|m: int| 0 <= m < all.len() && all[m] == free[q];
    }
}

/// Generates the contents of `level`: carves the caves, lays one tile per
/// cell, draws the stairs among the carved cells, then draws from the other
/// carved cells, without replacement, a cell for the player (the existing
/// player is moved there; one is created if there is none), then up to ten
/// pieces of gold and five monsters. Fewer cells mean fewer of them.
pub fn generate_level(world: &mut GameWorld, rng: &mut Rng, level: Entity)
    requires
        old(world).wf(),
        old(world).entities.count() + old(world).parameters.width * old(world).parameters.height
            + GOLD_PIECES + MONSTERS + 2 < usize::MAX,
        old(world).entities.live(level.id),
    ensures
        final(world).wf(),
        final(world).level@ == old(world).level@.insert(level.id, Level { generated: true }),
        final(world).parameters == old(world).parameters,
        final(world).time == old(world).time,
        final(world).last_user_event == old(world).last_user_event,
        level_laid(old(world), final(world), old(rng).state, level),
        final(world).entities.count() <= old(world).entities.count() + old(world).parameters.width
            * old(world).parameters.height + GOLD_PIECES + MONSTERS + 1,
{
    let width = world.parameters.width;
    let height = world.parameters.height;
    let ghost s0 = old(rng).state;
    let ghost n0 = old(world).entities.count();
    proof {
        world.entities.lemma_bounds();
    }
    let mut starts: Vec<WorldPosition> = Vec::new();
    let mut i: usize = 0;
    while i < DIGGERS
        invariant
            0 <= i <= DIGGERS,
            width >= 1,
            height >= 1,
            (rng.state, starts@) == draw_starts(s0, width, height, i as nat),
            starts@.len() == i,
            forall|k: int| 0 <= k < starts@.len() ==> in_bounds(#[trigger] starts@[k], width, height),
        decreases DIGGERS - i,
    {
        let x = random_in_range(rng, 0, width - 1);
        let y = random_in_range(rng, 0, height - 1);
        starts.push(WorldPosition { x, y });
        i = i + 1;
    }
    let grid = carve(rng, width, height, &starts, DIG_ROUNDS);
    assert(grid@ =~= carved_layout(s0, width, height));
    assert(rng.state == carved_state(s0, width, height));
    let cells: usize = (width * height) as usize;
    let mut open_cells: Vec<WorldPosition> = Vec::new();
    let mut j: usize = 0;
    while j < cells
        invariant
            0 <= j <= cells,
            cells == width * height,
            grid@.len() == cells,
            width >= 1,
            height >= 1,
            open_cells@ == open_prefix(grid@, width, height, j as nat),
        decreases cells - j,
    {
        proof {
            lemma_tile_cell(j as int, width, height);
        }
        let p = WorldPosition { x: (j as u64) / height, y: (j as u64) % height };
        proof {
            lemma_cell_index(p, width, height);
            assert(p == tile_cell(j as int, height));
        }
        if grid[(p.y * width + p.x) as usize] {
            open_cells.push(p);
        }
        j = j + 1;
    }
    proof {
        lemma_open_prefix(grid@, width, height, cells as nat);
        assert(open_cells@ == carved_cells(s0, width, height));
    }
    let stairs: Option<WorldPosition> = match random_in_vec(rng, &open_cells) {
        Some(c) => Some(*c),
        None => None,
    };
    assert(stairs == stairs_cell(s0, width, height));
    let mut floor: Vec<WorldPosition> = Vec::new();
    let mut f: usize = 0;
    while f < open_cells.len()
        invariant
            0 <= f <= open_cells@.len(),
            floor@ == without(open_cells@.take(f as int), stairs),
        decreases open_cells@.len() - f,
    {
        let c = open_cells[f];
        assert(open_cells@.take(f + 1).drop_last() =~= open_cells@.take(f as int));
        if stairs != Some(c) {
            floor.push(c);
        }
        f = f + 1;
    }
    assert(open_cells@.take(open_cells@.len() as int) =~= open_cells@);
    proof {
        lemma_without_in_bounds(open_cells@, stairs, width, height);
    }
    let ghost pool = floor@;
    let ghost s2 = rng.state;
    let old_player = find_player(world);
    let ghost before_tiles = *world;
    spawn_tiles(world, level, &grid, stairs);
    let ghost after_tiles = *world;
    let ghost base = after_tiles.entities.count();
    let ghost mut taken: Seq<WorldPosition> = Seq::empty();
    let ghost reused: int = if old_player is Some { 1 } else { 0 };
    proof {
        if old_player is None {
            assert(!has_player(old(world)));
        } else {
            assert(has_player(old(world)));
            lemma_extends_same(old(world), &after_tiles, n0, old_player->0.id);
        }
        lemma_extends_same(old(world), &after_tiles, n0, level.id);
    }
    let mut g: usize = 0;
    while g < 1 + GOLD_PIECES + MONSTERS
        invariant
            0 <= g <= 1 + GOLD_PIECES + MONSTERS,
            world.wf(),
            world.parameters == after_tiles.parameters,
            world.time == old(world).time,
            world.last_user_event == old(world).last_user_event,
            world.level == old(world).level,
            width == world.parameters.width,
            height == world.parameters.height,
            base == n0 + width * height,
            base + 1 + GOLD_PIECES + MONSTERS + 1 < usize::MAX,
            (rng.state, floor@, taken) == picks(s2, pool, g as nat),
            taken.len() == g || floor@.len() == 0,
            taken.len() <= g,
            reused == (if old_player is Some { 1int } else { 0int }),
            old_player is Some ==> last_player(old(world), old_player->0.id) && old_player->0.id < n0,
            old_player is Some ==> after_tiles.entities.live(old_player->0.id),
            world.entities.alive().contains(level.id),
            world.entities.count() == base + (if taken.len() > reused { taken.len() - reused } else { 0int }),
            forall|k: int| reused <= k < taken.len() ==> #[trigger] is_spawned(
                world,
                (base + k - reused) as usize,
                spawn_kind(k),
                taken[k],
                level,
            ),
            old_player is Some && taken.len() > 0 ==> world.placed().contains_key(old_player->0.id)
                && world.placed()[old_player->0.id] == taken[0] && world.world_position@[old_player->0.id] == taken[0],
            forall|i: usize|
                i < base && !(old_player is Some && taken.len() > 0 && i == old_player->0.id) ==> #[trigger] same_entity(
                    &after_tiles,
                    world,
                    i,
                ),
            forall|k: int| 0 <= k < floor@.len() ==> in_bounds(#[trigger] floor@[k], width, height),
        decreases 1 + GOLD_PIECES + MONSTERS - g,
    {
        let ghost before = *world;
        let ghost prev_taken = taken;
        let ghost prev_floor = floor@;
        proof {
            world.entities.lemma_bounds();
            assert(level.id < before.entities.count());
        }
        let c = random_in_vec_and_remove(rng, &mut floor);
        proof {
            assert forall|k: int| 0 <= k < floor@.len() implies in_bounds(#[trigger] floor@[k], width, height) by {
                                if prev_floor.len() > 0 {
                    let ii = index_of(draw_of(picks(s2, pool, g as nat).0), prev_floor.len());
                    if k < ii {
                        assert(floor@[k] == prev_floor[k]);
                    } else {
                        assert(floor@[k] == prev_floor[k + 1]);
                    }
                }
            }
        }
        if let Some(c) = c {
            proof {
                taken = taken.push(c);
                assert(prev_taken.len() == g);
            }
            if g == 0 {
                match old_player {
                    Some(pl) => {
                        assert(same_entity(&after_tiles, world, pl.id));
                        world.place(pl, c);
                    },
                    None => {
                        spawn(world, level, Spawn::Player, c);
                    },
                }
            } else {
                let k = if g <= GOLD_PIECES { Spawn::Gold } else { Spawn::Monster };
                spawn(world, level, k, c);
            }
            proof {
                let placed_pl = old_player is Some && g == 0;
                if !placed_pl {
                    assert forall|i: usize| i < before.entities.count() implies #[trigger] same_entity(&before, world, i) by {
                        lemma_extends_same(&before, world, before.entities.count(), i);
                    }
                } else {
                    assert forall|i: usize| i != old_player->0.id implies #[trigger] same_entity(&before, world, i) by {}
                }
                assert forall|k: int| reused <= k < taken.len() implies #[trigger] is_spawned(
                    world,
                    (base + k - reused) as usize,
                    spawn_kind(k),
                    taken[k],
                    level,
                ) by {
                    if k < prev_taken.len() {
                        assert(taken[k] == prev_taken[k]);
                        assert(is_spawned(&before, (base + k - reused) as usize, spawn_kind(k), prev_taken[k], level));
                        assert(same_entity(&before, world, (base + k - reused) as usize));
                        lemma_same_keeps(&before, world, (base + k - reused) as usize, Tile::Floor, spawn_kind(k), taken[k], level);
                    }
                }
                assert forall|i: usize|
                    i < base && !(old_player is Some && taken.len() > 0 && i == old_player->0.id) implies #[trigger] same_entity(
                        &after_tiles,
                        world,
                        i,
                    ) by {
                    assert(same_entity(&after_tiles, &before, i));
                    assert(same_entity(&before, world, i));
                }
                if old_player is Some && prev_taken.len() > 0 {
                    let pl = old_player->0.id;
                    assert(same_entity(&before, world, pl));
                }
            }
        } else {
            proof {
                assert(floor@.len() == 0);
            }
        }
        g = g + 1;
    }
    let ghost before_flag = *world;
    assert(level.id < world.entities.count());
    world.level.insert(level, Level { generated: true });
    proof {
        let tiles = width * height;
        assert(before_tiles == *old(world));
        assert(taken == placements(s0, width, height));
        assert forall|i: usize| i != level.id implies #[trigger] same_entity(&before_flag, world, i) by {}
        assert forall|j: int| 0 <= j < tiles implies is_tile(
            world,
            (n0 + j) as usize,
            tile_kind(grid@, width, stairs, #[trigger] tile_cell(j, height)),
            tile_cell(j, height),
            level,
        ) by {
            let i = (n0 + j) as usize;
            let t = tile_kind(grid@, width, stairs, tile_cell(j, height));
            assert(is_tile(&after_tiles, i, t, tile_cell(j, height), level));
            assert(same_entity(&after_tiles, &before_flag, i));
            lemma_same_keeps(&after_tiles, &before_flag, i, t, Spawn::Gold, tile_cell(j, height), level);
            assert(same_entity(&before_flag, world, i));
            lemma_same_keeps(&before_flag, world, i, t, Spawn::Gold, tile_cell(j, height), level);
        }
        assert(tiles_laid(world, n0, grid@, stairs, level));
        assert forall|k: int| reused <= k < taken.len() implies #[trigger] is_spawned(
            world,
            (n0 + tiles + k - reused) as usize,
            spawn_kind(k),
            taken[k],
            level,
        ) by {
            let i = (base + k - reused) as usize;
            assert(is_spawned(&before_flag, i, spawn_kind(k), taken[k], level));
            assert(same_entity(&before_flag, world, i));
            lemma_same_keeps(&before_flag, world, i, Tile::Floor, spawn_kind(k), taken[k], level);
        }
        if old_player is Some {
            assert(has_player(old(world)));
            assert forall|p: usize| #[trigger] last_player(old(world), p) && taken.len() > 0 implies world.placed().contains_key(p)
                && world.placed()[p] == taken[0] && world.world_position@[p] == taken[0] by {
                lemma_last_player_unique(old(world), p, old_player->0.id);
                assert(world.placed() =~= before_flag.placed());
            }
        } else {
            assert(!has_player(old(world)));
        }
        assert forall|i: usize|
            i < n0 && i != level.id && !(last_player(old(world), i) && taken.len() > 0) implies #[trigger] same_entity(
                old(world),
                world,
                i,
            ) by {
            lemma_extends_same(old(world), &after_tiles, n0, i);
            if old_player is Some && taken.len() > 0 && i == old_player->0.id {
                assert(last_player(old(world), i));
            }
            assert(same_entity(&after_tiles, &before_flag, i));
            assert(same_entity(&before_flag, world, i));
        }
    }
}

/// Creates a level entity whose contents are still to be generated.
pub fn new_level(world: &mut GameWorld) -> (e: Entity)
    requires
        old(world).wf(),
        old(world).entities.count() + 1 < usize::MAX,
    ensures
        final(world).wf(),
        e.id == old(world).entities.count(),
        final(world).entities.count() == old(world).entities.count() + 1,
        final(world).entities.live(e.id),
        final(world).level@ == old(world).level@.insert(e.id, Level { generated: false }),
        final(world).parameters == old(world).parameters,
{
    proof {
        world.entities.lemma_bounds();
    }
    let e = world.create_entity();
    world.level.insert(e, Level { generated: false });
    assert(world.placed() =~= old(world).placed());
    e
}

/// A live level whose contents are still to be generated.
pub open spec fn ungenerated(w: &GameWorld, i: usize) -> bool {
    &&& w.entities.live(i)
    &&& w.level@.contains_key(i)
    &&& !w.level@[i].generated
}

/// What one pass of the generator does to world `a` and generator `ra`,
/// giving `b` and `rb`: the first live level not generated yet, if any, is
/// laid out from the generator state.
pub open spec fn generation_done(a: &GameWorld, b: &GameWorld, ra: Rng, rb: Rng) -> bool {
    &&& b.entities.count() <= a.entities.count() + a.parameters.width * a.parameters.height + GOLD_PIECES
        + MONSTERS + 1
    &&& b.parameters == a.parameters
    &&& b.time == a.time
    &&& b.last_user_event == a.last_user_event
    &&& (forall|i: usize| !ungenerated(a, i)) ==> *b == *a && rb == ra
    &&& forall|i: usize|
        #[trigger] ungenerated(a, i) && (forall|k: usize| k < i ==> !ungenerated(a, k)) ==> {
            &&& b.level@ == a.level@.insert(i, Level { generated: true })
            &&& level_laid(a, b, ra.state, Entity { id: i })
        }
}

/// The system that fills new levels.
pub struct LevelGeneration;

impl LevelGeneration {
    /// Generates the first live level not generated yet, if any. A generated
    /// level is never generated again: when every level is generated, nothing
    /// changes and no entity is added.
    pub fn run(&self, world: &mut GameWorld, rng: &mut Rng)
        requires
            old(world).wf(),
            old(world).entities.count() + old(world).parameters.width * old(world).parameters.height
                + GOLD_PIECES + MONSTERS + 2 < usize::MAX,
        ensures
            final(world).wf(),
            generation_done(old(world), final(world), *old(rng), *final(rng)),
    {
        let n = world.entities.len();
        let mut i: usize = 0;
        while i < n
            invariant
                0 <= i <= n,
                n == world.entities.count(),
                *world == *old(world),
                world.wf(),
                world.entities.count() + world.parameters.width * world.parameters.height + GOLD_PIECES
                    + MONSTERS + 2 < usize::MAX,
                *rng == *old(rng),
                forall|k: usize| k < i ==> !ungenerated(old(world), k),
            decreases n - i,
        {
            let e = Entity { id: i };
            if world.entities.is_alive(e) && !world.entities.is_doomed(e) {
                if let Some(l) = world.level.get(e) {
                    if !l.generated {
                        assert(ungenerated(old(world), i));
                        generate_level(world, rng, e);
                        proof {
                            assert forall|k: usize|
                                #[trigger] ungenerated(old(world), k) && (forall|m: usize| m < k ==> !ungenerated(old(world), m))
                                    implies k == i by {
                                if k < i {
                                } else if i < k {
                                    assert(!ungenerated(old(world), i));
                                }
                            }
                        }
                        return ;
                    }
                }
            }
            i = i + 1;
        }
        proof {
            world.entities.lemma_bounds();
            assert forall|k: usize| !ungenerated(old(world), k) by {
                if k >= n {
                    assert(!world.entities.alive().contains(k));
                }
            }
        }
    }
}

} // verus!
