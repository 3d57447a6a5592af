use vstd::prelude::*;

use crate::common::Color;
use crate::components::{marked, Damageable, Render};
use crate::game::GameWorld;
use crate::lookup::{cell_at, lemma_cell_at, lemma_cell_index};
use crate::store::Entity;
use crate::world::WorldPosition;

verus! {

/// A character drawn in a color.
#[derive(Clone, Copy, Debug, PartialEq, Eq, Structural)]
pub struct Glyph {
    pub symbol: char,
    pub color: Color,
}

/// What is drawn on one cell: the top glyph with its color, the top
/// background, the health shown as a bar, and whether the cell is only
/// remembered (drawn darkened) rather than in sight.
#[derive(Clone, Copy, Debug, PartialEq, Eq, Structural)]
pub struct RenderTarget {
    pub position: WorldPosition,
    pub glyph: Option<Glyph>,
    pub background_color: Option<Color>,
    pub damageable: Option<Damageable>,
    pub semi_renderable: bool,
}

/// The glyph of `render` with its color, if it has one.
pub open spec fn glyph_of(render: Render) -> Option<Glyph> {
    match render.glyph {
        Some(g) => Some(Glyph { symbol: g, color: render.foreground_color }),
        None => None,
    }
}

/// Draws `render` over what a cell already shows: a glyph replaces the one
/// below, a background replaces the one below, and the health shown is that of
/// the entity drawn last. A cell first drawn from memory stays marked so.
pub open spec fn layered(
    target: Option<RenderTarget>,
    render: Render,
    pos: WorldPosition,
    damageable: Option<Damageable>,
    semi_renderable: bool,
) -> RenderTarget {
    match target {
        Some(t) => RenderTarget {
            position: t.position,
            glyph: if render.glyph is Some { glyph_of(render) } else { t.glyph },
            background_color: if render.background_color is Some {
                render.background_color
            } else {
                t.background_color
            },
            damageable,
            semi_renderable: t.semi_renderable,
        },
        None => RenderTarget {
            position: pos,
            glyph: glyph_of(render),
            background_color: render.background_color,
            damageable,
            semi_renderable,
        },
    }
}

/// A health bar is drawn over an entity that has lost health.
pub fn shows_health_bar(d: &Damageable) -> (r: bool)
    ensures
        r == (d.health != d.max_health),
{
    d.health != d.max_health
}

/// The colors a cell is drawn with: tinted when hovered, else darkened when
/// only remembered.
pub open spec fn shaded(c: Color, hovered: bool, semi_renderable: bool) -> Color {
    if hovered {
        Color {
            r: (c.r + (255 - c.r) / 2) as u8,
            g: (c.g + (255 - c.g) / 2) as u8,
            b: (c.b + (255 - c.b) / 2) as u8,
        }
    } else if semi_renderable {
        Color { r: (c.r / 2) as u8, g: (c.g / 2) as u8, b: (c.b / 2) as u8 }
    } else {
        c
    }
}

pub fn shade(c: Color, hovered: bool, semi_renderable: bool) -> (r: Color)
    ensures
        r == shaded(c, hovered, semi_renderable),
{
    if hovered {
        c.tinted()
    } else if semi_renderable {
        c.darkened()
    } else {
        c
    }
}

/// The viewer whose sight the map is drawn from: the live player-controlled
/// entity with sight that has the least id.
pub open spec fn map_viewer(w: &GameWorld, v: usize) -> bool {
    &&& w.entities.live(v)
    &&& w.player_controlled@.contains_key(v)
    &&& w.sighted@.contains_key(v)
    &&& forall|k: usize|
        k < v ==> !(w.entities.live(k) && #[trigger] w.player_controlled@.contains_key(k) && w.sighted@.contains_key(k))
}

/// Step `k` of drawing cell `p`, in pass `k / n` over entity `k % n`, draws
/// that entity: passes 0 to 3 draw the entities in sight whose layer has that
/// rank, pass 4 those remembered but out of sight.
pub open spec fn draws(w: &GameWorld, v: usize, p: WorldPosition, n: nat, k: nat) -> bool {
    let pass = k / n;
    let i = (k % n) as usize;
    let seen = marked(w.sighted@[v].seen@).contains(i);
    let recalled = marked(w.sighted@[v].seen_recently@).contains(i);
    &&& w.placed().contains_key(i)
    &&& w.placed()[i] == p
    &&& w.render@.contains_key(i)
    &&& if pass < 4 {
        seen && w.render@[i].z_layer.spec_rank() == pass
    } else {
        !seen && recalled
    }
}

/// Cell `p` after the first `k` drawing steps.
pub open spec fn composed(w: &GameWorld, v: usize, p: WorldPosition, n: nat, k: nat) -> Option<RenderTarget>
    decreases k,
{
    if k == 0 || n == 0 {
        None
    } else {
        let prev = composed(w, v, p, n, (k - 1) as nat);
        let j = (k - 1) as nat;
        if draws(w, v, p, n, j) {
            let i = (j % n) as usize;
            let semi = j / n >= 4;
            Some(
                layered(
                    prev,
                    w.render@[i],
                    p,
                    if !semi && w.damageable@.contains_key(i) {
                        Some(w.damageable@[i])
                    } else {
                        None
                    },
                    semi,
                ),
            )
        } else {
            prev
        }
    }
}

/// The system that lays out what the map shows.
pub struct Rendering;

impl Rendering {
    /// See `layered`.
    pub fn add_to_render_targets(
        target: Option<RenderTarget>,
        render: &Render,
        pos: WorldPosition,
        damageable: Option<Damageable>,
        semi_renderable: bool,
    ) -> (r: RenderTarget)
        ensures
            r == layered(target, *render, pos, damageable, semi_renderable),
    {
        let new_glyph = match render.glyph {
            Some(g) => Some(Glyph { symbol: g, color: render.foreground_color }),
            None => None,
        };
        match target {
            Some(t) => RenderTarget {
                position: t.position,
                glyph: if new_glyph.is_some() { new_glyph } else { t.glyph },
                background_color: if render.background_color.is_some() {
                    render.background_color
                } else {
                    t.background_color
                },
                damageable,
                semi_renderable: t.semi_renderable,
            },
            None => RenderTarget {
                position: pos,
                glyph: new_glyph,
                background_color: render.background_color,
                damageable,
                semi_renderable,
            },
        }
    }

    /// What each cell shows (slot `y * width + x` for `(x, y)`), from the
    /// sight of the first player with sight; none when there is no such player.
    pub fn run(&self, world: &GameWorld) -> (r: Option<Vec<Option<RenderTarget>>>)
        requires
            world.wf(),
            5 * world.entities.count() <= usize::MAX,
        ensures
            r is None ==> forall|v: usize| !map_viewer(world, v),
            r is Some ==> exists|v: usize|
                #[trigger] map_viewer(world, v) && r->0@.len() == world.parameters.width * world.parameters.height
                    && forall|c: int|
                    0 <= c < r->0@.len() ==> r->0@[c] == composed(
                        world,
                        v,
                        cell_at(c, world.parameters.width),
                        world.entities.count(),
                        5 * world.entities.count(),
                    ),
    {
        let n = world.entities.len();
        let mut viewer: Option<Entity> = None;
        let mut i: usize = 0;
        while i < n
            invariant_except_break
                viewer is None,
            invariant
                0 <= i <= n,
                n == world.entities.count(),
                forall|k: usize|
                    k < i ==> !(world.entities.live(k) && #[trigger] world.player_controlled@.contains_key(k)
                        && world.sighted@.contains_key(k)),
            ensures
                viewer is None ==> forall|k: usize|
                    k < n ==> !(world.entities.live(k) && #[trigger] world.player_controlled@.contains_key(k)
                        && world.sighted@.contains_key(k)),
                viewer is Some ==> map_viewer(world, viewer->0.id),
            decreases n - i,
        {
            let e = Entity { id: i };
            if world.entities.is_alive(e) && !world.entities.is_doomed(e) && world.player_controlled.contains(e)
                && world.sighted.contains(e) {
                viewer = Some(e);
                break;
            }
            i = i + 1;
        }
        proof {
            world.entities.lemma_bounds();
        }
        let v = match viewer {
            Some(v) => v,
            None => {
                return None;
            },
        };
        let sighted = world.sighted.get(v).unwrap();
        let width = world.parameters.width;
        let height = world.parameters.height;
        let cells: usize = (width * height) as usize;
        let mut grid: Vec<Option<RenderTarget>> = Vec::new();
        while grid.len() < cells
            invariant
                grid@.len() <= cells,
                forall|c: int| 0 <= c < grid@.len() ==> grid@[c] is None,
            decreases cells - grid.len(),
        {
            grid.push(None);
        }
        if n == 0 {
            assert forall|c: int| 0 <= c < grid@.len() implies grid@[c] == composed(world, v.id, cell_at(c, width), 0, 0) by {}
            return Some(grid);
        }
        let total = 5 * n;
        let mut k: usize = 0;
        while k < total
            invariant
                0 <= k <= total,
                total == 5 * n,
                n > 0,
                n == world.entities.count(),
                world.wf(),
                width == world.parameters.width,
                height == world.parameters.height,
                cells == width * height,
                grid@.len() == cells,
                *sighted == world.sighted@[v.id],
                map_viewer(world, v.id),
                forall|c: int| 0 <= c < cells ==> grid@[c] == composed(world, v.id, cell_at(c, width), n as nat, k as nat),
            decreases total - k,
        {
            let pass = k / n;
            let e = Entity { id: k % n };
            let ghost before = grid@;
            if let Some(p) = world.lookup.position_of(e) {
                proof {
                    world.lookup.lemma_consistent(e, p);
                    lemma_cell_index(p, width, height);
                }
                if let Some(render) = world.render.get(e) {
                    let seen = sighted.sees(e);
                    let recalled = sighted.recalls(e);
                    let drawn = if pass < 4 { seen && render.z_layer.rank() as usize == pass } else { !seen && recalled };
                    if drawn {
                        let c: usize = (p.y * width + p.x) as usize;
                        let semi = pass >= 4;
                        let health = if !semi {
                            match world.damageable.get(e) {
                                Some(d) => Some(*d),
                                None => None,
                            }
                        } else {
                            None
                        };
                        let t = Rendering::add_to_render_targets(grid[c], render, p, health, semi);
                        grid.set(c, Some(t));
                        proof {
                            assert forall|cc: int| 0 <= cc < cells implies grid@[cc] == composed(world, v.id, cell_at(cc, width), n as nat, (k + 1) as nat) by {
                                lemma_cell_at(cc, width, height);
                                if cell_at(cc, width) == p {
                                    assert(cc == c);
                                }
                                assert(before[cc] == composed(world, v.id, cell_at(cc, width), n as nat, k as nat));
                            }
                        }
                    } else {
                        proof {
                            assert forall|cc: int| 0 <= cc < cells implies grid@[cc] == composed(world, v.id, cell_at(cc, width), n as nat, (k + 1) as nat) by {
                                assert(before[cc] == composed(world, v.id, cell_at(cc, width), n as nat, k as nat));
                            }
                        }
                    }
                } else {
                    proof {
                        assert forall|cc: int| 0 <= cc < cells implies grid@[cc] == composed(world, v.id, cell_at(cc, width), n as nat, (k + 1) as nat) by {
                            assert(before[cc] == composed(world, v.id, cell_at(cc, width), n as nat, k as nat));
                        }
                    }
                }
            } else {
                proof {
                    assert forall|cc: int| 0 <= cc < cells implies grid@[cc] == composed(world, v.id, cell_at(cc, width), n as nat, (k + 1) as nat) by {
                        assert(before[cc] == composed(world, v.id, cell_at(cc, width), n as nat, k as nat));
                    }
                }
            }
            k = k + 1;
        }
        Some(grid)
    }
}

} // verus!
