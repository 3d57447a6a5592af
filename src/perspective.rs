use vstd::prelude::*;

use crate::components::{marked, Sighted};
use crate::game::{keys_alive, GameWorld};
use crate::lookup::{cell_at, cell_index, lemma_cell_at, lemma_cell_index};
use crate::raycast::{abs, lemma_ray_steps_sum, on_grid, ray_point, ray_steps, to_cell, Raycast};
use crate::store::Entity;
use crate::world::{in_bounds, WorldPosition};

verus! {

/// How far, in cells, sight reaches.
pub const MAX_CELL_DISTANCE: u64 = 20;

/// Rays cast from each viewer: one towards each cell on the border of the
/// square of half side 32 around it, at least two per cell of the
/// circumference at `MAX_CELL_DISTANCE` (4 pi times 20 is about 251).
pub const RAYS: usize = 256;

/// Direction of ray `r`: the border cells of the square, side by side.
pub open spec fn fan_offset(r: int) -> (int, int) {
    let side = r / 64;
    let k = r % 64 - 32;
    if side == 0 {
        (32, k)
    } else if side == 1 {
        (-k, 32)
    } else if side == 2 {
        (-32, -k)
    } else {
        (k, -32)
    }
}

fn fan_direction(r: usize) -> (d: (i64, i64))
    requires
        r < RAYS,
    ensures
        d.0 == fan_offset(r as int).0,
        d.1 == fan_offset(r as int).1,
        -32 <= d.0 <= 32,
        -32 <= d.1 <= 32,
{
    let side = r / 64;
    let k: i64 = (r % 64) as i64 - 32;
    if side == 0 {
        (32, k)
    } else if side == 1 {
        (-k, 32)
    } else if side == 2 {
        (-32, -k)
    } else {
        (k, -32)
    }
}

/// The last cell of the grid.
pub open spec fn last_cell(w: &GameWorld) -> WorldPosition {
    WorldPosition { x: (w.parameters.width - 1) as u64, y: (w.parameters.height - 1) as u64 }
}

/// Some live opaque entity stands on `p`.
pub open spec fn opaque_at(w: &GameWorld, p: WorldPosition) -> bool {
    exists|i: usize| #[trigger] w.opaque@.contains_key(i) && w.placed().contains_key(i) && w.placed()[i] == p
}

/// A ray stops after its `n`-th cell: the cell is opaque, or lies at
/// `MAX_CELL_DISTANCE` or farther from the viewer.
pub open spec fn ray_blocked(w: &GameWorld, o: WorldPosition, dx: int, dy: int, n: nat) -> bool {
    let (kx, ky) = ray_steps(abs(dx), abs(dy), n);
    opaque_at(w, to_cell(ray_point(o, dx, dy, n))) || kx * kx + ky * ky >= MAX_CELL_DISTANCE
        * MAX_CELL_DISTANCE
}

/// The ray from `o` in direction `(dx, dy)` gets to its `n`-th cell: every
/// cell up to it is on the grid, and none before it stops the ray.
pub open spec fn ray_reaches(w: &GameWorld, o: WorldPosition, dx: int, dy: int, n: nat) -> bool {
    &&& n >= 1
    &&& forall|m: nat| 1 <= m <= n ==> on_grid(#[trigger] ray_point(o, dx, dy, m), last_cell(w))
    &&& forall|m: nat| 1 <= m < n ==> !#[trigger] ray_blocked(w, o, dx, dy, m)
}

/// The ray from `o` in direction `(dx, dy)` gets to `p` within its first `bound` cells.
pub open spec fn ray_sees_within(w: &GameWorld, o: WorldPosition, dx: int, dy: int, p: WorldPosition, bound: nat) -> bool {
    exists|n: nat| 1 <= n <= bound && #[trigger] ray_reaches(w, o, dx, dy, n) && to_cell(ray_point(o, dx, dy, n)) == p
}

/// The ray from `o` in direction `(dx, dy)` gets to `p`.
pub open spec fn ray_sees(w: &GameWorld, o: WorldPosition, dx: int, dy: int, p: WorldPosition) -> bool {
    exists|n: nat| #[trigger] ray_reaches(w, o, dx, dy, n) && to_cell(ray_point(o, dx, dy, n)) == p
}

proof fn lemma_sees_bounded(w: &GameWorld, o: WorldPosition, dx: int, dy: int, p: WorldPosition, m: nat)
    requires
        forall|n: nat| #[trigger] ray_reaches(w, o, dx, dy, n) ==> n <= m,
    ensures
        ray_sees(w, o, dx, dy, p) == ray_sees_within(w, o, dx, dy, p, m),
{
    if ray_sees(w, o, dx, dy, p) {
        let n = choose|n: nat| #[trigger] ray_reaches(w, o, dx, dy, n) && to_cell(ray_point(o, dx, dy, n)) == p;
        assert(1 <= n <= m);
    }
    if ray_sees_within(w, o, dx, dy, p, m) {
        let n = choose|n: nat| 1 <= n <= m && #[trigger] ray_reaches(w, o, dx, dy, n) && to_cell(ray_point(o, dx, dy, n)) == p;
        assert(ray_reaches(w, o, dx, dy, n));
    }
}

proof fn lemma_sees_step(w: &GameWorld, o: WorldPosition, dx: int, dy: int, p: WorldPosition, m: nat)
    requires
        ray_reaches(w, o, dx, dy, m + 1),
    ensures
        ray_sees_within(w, o, dx, dy, p, m + 1) == (ray_sees_within(w, o, dx, dy, p, m) || to_cell(ray_point(o, dx, dy, m + 1)) == p),
{
    if ray_sees_within(w, o, dx, dy, p, m + 1) {
        let n = choose|n: nat| 1 <= n <= m + 1 && #[trigger] ray_reaches(w, o, dx, dy, n) && to_cell(ray_point(o, dx, dy, n)) == p;
        if n <= m {
            assert(ray_sees_within(w, o, dx, dy, p, m));
        }
    }
    if ray_sees_within(w, o, dx, dy, p, m) {
        let n = choose|n: nat| 1 <= n <= m && #[trigger] ray_reaches(w, o, dx, dy, n) && to_cell(ray_point(o, dx, dy, n)) == p;
        assert(1 <= n <= m + 1);
    }
}

proof fn lemma_rays_step(w: &GameWorld, o: WorldPosition, p: WorldPosition, r: int)
    requires
        0 <= r,
    ensures
        seen_by_rays(w, o, p, r + 1) == (seen_by_rays(w, o, p, r) || ray_sees(w, o, fan_offset(r).0, fan_offset(r).1, p)),
{
    if seen_by_rays(w, o, p, r + 1) && p != o {
        let (rr, n) = choose|rr: int, n: nat|
            0 <= rr < r + 1 && #[trigger] ray_reaches(w, o, fan_offset(rr).0, fan_offset(rr).1, n) && to_cell(
                ray_point(o, fan_offset(rr).0, fan_offset(rr).1, n),
            ) == p;
        if rr < r {
            assert(seen_by_rays(w, o, p, r));
        } else {
            assert(ray_sees(w, o, fan_offset(r).0, fan_offset(r).1, p));
        }
    }
    if seen_by_rays(w, o, p, r) && p != o {
        let (rr, n) = choose|rr: int, n: nat|
            0 <= rr < r && #[trigger] ray_reaches(w, o, fan_offset(rr).0, fan_offset(rr).1, n) && to_cell(
                ray_point(o, fan_offset(rr).0, fan_offset(rr).1, n),
            ) == p;
        assert(0 <= rr < r + 1);
    }
    if ray_sees(w, o, fan_offset(r).0, fan_offset(r).1, p) {
        let n = choose|n: nat| #[trigger] ray_reaches(w, o, fan_offset(r).0, fan_offset(r).1, n) && to_cell(ray_point(o, fan_offset(r).0, fan_offset(r).1, n)) == p;
        assert(0 <= r < r + 1);
    }
}

/// Cell `p` is seen from `o` by one of the first `rays` rays, or is `o` itself.
pub open spec fn seen_by_rays(w: &GameWorld, o: WorldPosition, p: WorldPosition, rays: int) -> bool {
    p == o || exists|r: int, n: nat|
        0 <= r < rays && #[trigger] ray_reaches(w, o, fan_offset(r).0, fan_offset(r).1, n) && to_cell(
            ray_point(o, fan_offset(r).0, fan_offset(r).1, n),
        ) == p
}

/// Cell `p` is in sight from `o`.
pub open spec fn visible(w: &GameWorld, o: WorldPosition, p: WorldPosition) -> bool {
    seen_by_rays(w, o, p, RAYS as int)
}

/// The cells that hold a live opaque entity, slot `y * width + x` for `(x, y)`.
fn opaque_grid(world: &GameWorld) -> (g: Vec<bool>)
    requires
        world.wf(),
    ensures
        g@.len() == world.parameters.width * world.parameters.height,
        forall|c: int|
            0 <= c < g@.len() ==> g@[c] == opaque_at(world, cell_at(c, world.parameters.width)),
{
    let width = world.parameters.width;
    let height = world.parameters.height;
    let cells: usize = (width * height) as usize;
    let mut g: Vec<bool> = Vec::new();
    while g.len() < cells
        invariant
            g@.len() <= cells,
            forall|c: int| 0 <= c < g@.len() ==> !g@[c],
        decreases cells - g.len(),
    {
        g.push(false);
    }
    let n = world.entities.len();
    let mut i: usize = 0;
    while i < n
        invariant
            0 <= i <= n,
            n == world.entities.count(),
            world.wf(),
            width == world.parameters.width,
            height == world.parameters.height,
            cells == width * height,
            g@.len() == cells,
            forall|c: int|
                0 <= c < cells ==> g@[c] == exists|k: usize|
                    k < i && #[trigger] world.opaque@.contains_key(k) && world.placed().contains_key(k)
                        && world.placed()[k] == cell_at(c, width),
        decreases n - i,
    {
        let e = Entity { id: i };
        if world.opaque.contains(e) {
            if let Some(p) = world.lookup.position_of(e) {
                proof {
                    world.lookup.lemma_consistent(e, p);
                    lemma_cell_index(p, width, height);
                }
                let c: usize = (p.y * width + p.x) as usize;
                g.set(c, true);
                proof {
                    assert forall|cc: int| 0 <= cc < cells implies g@[cc] == exists|k: usize|
                        k < i + 1 && #[trigger] world.opaque@.contains_key(k) && world.placed().contains_key(k)
                            && world.placed()[k] == cell_at(cc, width) by {
                        lemma_cell_at(cc, width, height);
                        if cc == c {
                            assert(world.opaque@.contains_key(i));
                        } else if exists|k: usize|
                            k < i + 1 && #[trigger] world.opaque@.contains_key(k) && world.placed().contains_key(k)
                                && world.placed()[k] == cell_at(cc, width) {
                            let k = choose|k: usize|
                                k < i + 1 && #[trigger] world.opaque@.contains_key(k) && world.placed().contains_key(k)
                                    && world.placed()[k] == cell_at(cc, width);
                            if k == i {
                                assert(cell_index(cell_at(cc, width), width) == cc);
                            }
                        }
                    }
                }
            }
        }
        i = i + 1;
    }
    proof {
        assert forall|c: int| 0 <= c < g@.len() implies g@[c] == opaque_at(world, cell_at(c, width)) by {
            if opaque_at(world, cell_at(c, width)) {
                let k = choose|k: usize| #[trigger] world.opaque@.contains_key(k) && world.placed().contains_key(k)
                    && world.placed()[k] == cell_at(c, width);
                assert(k < n);
            }
        }
    }
    g
}

proof fn lemma_short_ray(kx: nat, ky: nat)
    requires
        kx * kx + ky * ky < 400,
    ensures
        kx + ky < 29,
{
    assert(kx + ky < 29) by (nonlinear_arith)
        requires
            kx * kx + ky * ky < 400,
    ;
}

/// Sight stops at an opaque cell: when a ray from `o` gets to an opaque
/// cell, that cell is in sight, and no cell farther along the ray is reached
/// by it.
pub proof fn lemma_opaque_occludes(w: &GameWorld, o: WorldPosition, r: int, m: nat, n: nat)
    requires
        0 <= r < RAYS,
        ray_reaches(w, o, fan_offset(r).0, fan_offset(r).1, m),
        opaque_at(w, to_cell(ray_point(o, fan_offset(r).0, fan_offset(r).1, m))),
        m < n,
    ensures
        visible(w, o, to_cell(ray_point(o, fan_offset(r).0, fan_offset(r).1, m))),
        !ray_reaches(w, o, fan_offset(r).0, fan_offset(r).1, n),
{
    assert(ray_blocked(w, o, fan_offset(r).0, fan_offset(r).1, m));
}

/// The cells in sight from `origin`, slot `y * width + x` for `(x, y)`.
fn seen_cells(world: &GameWorld, opaque: &Vec<bool>, origin: WorldPosition) -> (seen: Vec<bool>)
    requires
        world.wf(),
        in_bounds(origin, world.parameters.width, world.parameters.height),
        opaque@.len() == world.parameters.width * world.parameters.height,
        forall|c: int|
            0 <= c < opaque@.len() ==> opaque@[c] == opaque_at(world, cell_at(c, world.parameters.width)),
    ensures
        seen@.len() == world.parameters.width * world.parameters.height,
        forall|c: int|
            0 <= c < seen@.len() ==> seen@[c] == visible(world, origin, cell_at(c, world.parameters.width)),
{
    let width = world.parameters.width;
    let height = world.parameters.height;
    let cells: usize = (width * height) as usize;
    let max = WorldPosition { x: width - 1, y: height - 1 };
    let mut seen: Vec<bool> = Vec::new();
    while seen.len() < cells
        invariant
            seen@.len() <= cells,
            forall|c: int| 0 <= c < seen@.len() ==> !seen@[c],
        decreases cells - seen.len(),
    {
        seen.push(false);
    }
    proof {
        lemma_cell_index(origin, width, height);
    }
    seen.set((origin.y * width + origin.x) as usize, true);
    proof {
        assert forall|c: int| 0 <= c < cells implies seen@[c] == seen_by_rays(world, origin, cell_at(c, width), 0) by {
            lemma_cell_at(c, width, height);
        }
    }
    let mut r: usize = 0;
    while r < RAYS
        invariant
            0 <= r <= RAYS,
            world.wf(),
            width == world.parameters.width,
            height == world.parameters.height,
            max == last_cell(world),
            cells == width * height,
            in_bounds(origin, width, height),
            opaque@.len() == cells,
            forall|c: int| 0 <= c < cells ==> opaque@[c] == opaque_at(world, cell_at(c, width)),
            seen@.len() == cells,
            forall|c: int| 0 <= c < cells ==> seen@[c] == seen_by_rays(world, origin, cell_at(c, width), r as int),
        decreases RAYS - r,
    {
        let (dx, dy) = fan_direction(r);
        let ghost fdx = dx as int;
        let ghost fdy = dy as int;
        let mut ray = Raycast::new(origin, max, dx, dy);
        let ghost base = seen@;
        let mut done = false;
        while !done
            invariant
                !done ==> ray.steps() >= 1 ==> ray_reaches(world, origin, fdx, fdy, ray.steps()) && !ray_blocked(world, origin, fdx, fdy, ray.steps()),
                !done ==> ray.steps() < 29,
                !done ==> forall|c: int| 0 <= c < cells ==> seen@[c] == (base[c] || ray_sees_within(world, origin, fdx, fdy, cell_at(c, width), ray.steps())),
                done ==> forall|c: int| 0 <= c < cells ==> seen@[c] == (base[c] || ray_sees(world, origin, fdx, fdy, cell_at(c, width))),
                world.wf(),
                width == world.parameters.width,
                height == world.parameters.height,
                max == last_cell(world),
                cells == width * height,
                r < RAYS,
                fdx == fan_offset(r as int).0,
                fdy == fan_offset(r as int).1,
                opaque@.len() == cells,
                forall|c: int| 0 <= c < cells ==> opaque@[c] == opaque_at(world, cell_at(c, width)),
                ray.wf(),
                ray.origin == origin,
                ray.max_position == max,
                ray.dx() == fdx,
                ray.dy() == fdy,
                base.len() == cells,
                forall|c: int| 0 <= c < cells ==> base[c] == seen_by_rays(world, origin, cell_at(c, width), r as int),
                seen@.len() == cells,
            decreases (if done { 0 } else { 30 - ray.steps() }),
        {
            let ghost m = ray.steps();
            let ghost m1: nat = m + 1;
            let ghost top = seen@;
            assert(forall|c: int| 0 <= c < cells ==> seen@[c] == (base[c] || ray_sees_within(world, origin, fdx, fdy, cell_at(c, width), m)));
            let step = ray.next();
            match step {
                None => {
                    proof {
                        assert(seen@ == top);
                        assert(!on_grid(ray_point(origin, fdx, fdy, (m + 1) as nat), last_cell(world)));
                        assert forall|n: nat| #[trigger] ray_reaches(world, origin, fdx, fdy, n) implies n <= m by {
                            if n > m {
                                assert(on_grid(ray_point(origin, fdx, fdy, (m + 1) as nat), last_cell(world)));
                            }
                        }
                        assert forall|c: int| 0 <= c < cells implies seen@[c] == (base[c] || ray_sees(world, origin, fdx, fdy, cell_at(c, width))) by {
                            assert(seen@[c] == (base[c] || ray_sees_within(world, origin, fdx, fdy, cell_at(c, width), m)));
                            lemma_sees_bounded(world, origin, fdx, fdy, cell_at(c, width), m);
                        }
                    }
                    done = true;
                },
                Some(p) => {
                    proof {
                        lemma_ray_steps_sum(abs(fdx), abs(fdy), m + 1);
                        assert(in_bounds(p, width, height));
                        lemma_cell_index(p, width, height);
                        assert(ray_reaches(world, origin, fdx, fdy, m + 1)) by {
                            assert forall|k: nat| 1 <= k <= m + 1 implies on_grid(#[trigger] ray_point(origin, fdx, fdy, k), last_cell(world)) by {
                                if k <= m {
                                    assert(ray_reaches(world, origin, fdx, fdy, m));
                                }
                            }
                            assert forall|k: nat| 1 <= k < m + 1 implies !#[trigger] ray_blocked(world, origin, fdx, fdy, k) by {
                                if k < m {
                                    assert(ray_reaches(world, origin, fdx, fdy, m));
                                }
                            }
                        }
                    }
                    let c: usize = (p.y * width + p.x) as usize;
                    let ghost before = seen@;
                    proof {
                        assert forall|cc: int| 0 <= cc < cells implies before[cc] == (base[cc] || ray_sees_within(world, origin, fdx, fdy, cell_at(cc, width), m)) by {
                            assert(seen@[cc] == (base[cc] || ray_sees_within(world, origin, fdx, fdy, cell_at(cc, width), m)));
                        }
                    }
                    seen.set(c, true);
                    proof {
                        assert forall|cc: int| 0 <= cc < cells implies seen@[cc] == (base[cc] || ray_sees_within(world, origin, fdx, fdy, cell_at(cc, width), m1)) by {
                            lemma_cell_at(cc, width, height);
                            lemma_sees_step(world, origin, fdx, fdy, cell_at(cc, width), m);
                            assert(before[cc] == (base[cc] || ray_sees_within(world, origin, fdx, fdy, cell_at(cc, width), m)));
                            if cell_at(cc, width) == p {
                                assert(cc == c);
                            }
                        }
                    }
                    assert(ray.kx <= 29 && ray.ky <= 29);
                    assert(ray.kx * ray.kx <= 841 && ray.ky * ray.ky <= 841) by (nonlinear_arith)
                        requires
                            ray.kx <= 29,
                            ray.ky <= 29,
                    ;
                    let dist2: u64 = ray.kx * ray.kx + ray.ky * ray.ky;
                    let blocked = opaque[c] || dist2 >= MAX_CELL_DISTANCE * MAX_CELL_DISTANCE;
                    proof {
                        assert(opaque@[c as int] == opaque_at(world, p));
                        assert(blocked == ray_blocked(world, origin, fdx, fdy, m1));
                    }
                    if blocked {
                        proof {
                            assert forall|n: nat| #[trigger] ray_reaches(world, origin, fdx, fdy, n) implies n <= m1 by {
                                if n > m1 {
                                    assert(!ray_blocked(world, origin, fdx, fdy, m1));
                                }
                            }
                            assert forall|cc: int| 0 <= cc < cells implies seen@[cc] == (base[cc] || ray_sees(world, origin, fdx, fdy, cell_at(cc, width))) by {
                                lemma_sees_bounded(world, origin, fdx, fdy, cell_at(cc, width), m1);
                            }
                        }
                        done = true;
                    } else {
                        proof {
                            lemma_short_ray(ray.kx as nat, ray.ky as nat);
                        }
                    }
                },
            }
        }
        proof {
            assert forall|c: int| 0 <= c < cells implies seen@[c] == seen_by_rays(world, origin, cell_at(c, width), r + 1) by {
                lemma_rays_step(world, origin, cell_at(c, width), r as int);
                assert(base[c] == seen_by_rays(world, origin, cell_at(c, width), r as int));
                assert(seen@[c] == (base[c] || ray_sees(world, origin, fdx, fdy, cell_at(c, width))));
            }
        }
        r = r + 1;
    }
    seen
}

/// For each entity id below the count: on the grid, on a cell that `cells` marks.
fn entities_on(world: &GameWorld, cells: &Vec<bool>) -> (bits: Vec<bool>)
    requires
        world.wf(),
        cells@.len() == world.parameters.width * world.parameters.height,
    ensures
        bits@.len() == world.entities.count(),
        forall|i: int|
            0 <= i < bits@.len() ==> bits@[i] == (world.placed().contains_key(i as usize) && cells@[cell_index(
                world.placed()[i as usize],
                world.parameters.width,
            )]),
{
    let n = world.entities.len();
    let width = world.parameters.width;
    let height = world.parameters.height;
    let mut bits: Vec<bool> = Vec::new();
    let mut i: usize = 0;
    while i < n
        invariant
            0 <= i <= n,
            n == world.entities.count(),
            world.wf(),
            width == world.parameters.width,
            height == world.parameters.height,
            cells@.len() == width * height,
            bits@.len() == i,
            forall|k: int|
                0 <= k < i ==> bits@[k] == (world.placed().contains_key(k as usize) && cells@[cell_index(
                    world.placed()[k as usize],
                    width,
                )]),
        decreases n - i,
    {
        let e = Entity { id: i };
        let b = match world.lookup.position_of(e) {
            Some(p) => {
                proof {
                    world.lookup.lemma_consistent(e, p);
                    lemma_cell_index(p, width, height);
                }
                cells[(p.y * width + p.x) as usize]
            },
            None => false,
        };
        bits.push(b);
        i = i + 1;
    }
    bits
}

/// The ids that `a` or `b` marks.
fn union_bits(a: &Vec<bool>, b: &Vec<bool>) -> (r: Vec<bool>)
    ensures
        marked(r@) == marked(a@).union(marked(b@)),
{
    let n = if a.len() > b.len() { a.len() } else { b.len() };
    let mut r: Vec<bool> = Vec::new();
    let mut i: usize = 0;
    while i < n
        invariant
            0 <= i <= n,
            n >= a@.len(),
            n >= b@.len(),
            r@.len() == i,
            forall|k: int| 0 <= k < i ==> r@[k] == ((k < a@.len() && a@[k]) || (k < b@.len() && b@[k])),
        decreases n - i,
    {
        let x = (i < a.len() && a[i]) || (i < b.len() && b[i]);
        r.push(x);
        i = i + 1;
    }
    assert(marked(r@) =~= marked(a@).union(marked(b@)));
    r
}

/// A live entity with sight, on the grid.
pub open spec fn viewer(w: &GameWorld, i: usize) -> bool {
    &&& w.entities.live(i)
    &&& w.sighted@.contains_key(i)
    &&& w.placed().contains_key(i)
}

/// What viewer `i` of world `w` sees: every entity on the grid on a cell in sight.
pub open spec fn sight_of(w: &GameWorld, i: usize) -> Set<usize> {
    Set::new(|j: usize| w.placed().contains_key(j) && visible(w, w.placed()[i], w.placed()[j]))
}

/// The sight that viewer `i` of `w` has after recomputation.
pub open spec fn refreshed(w: &GameWorld, i: usize, s: Sighted) -> bool {
    &&& marked(s.seen@) == sight_of(w, i)
    &&& marked(s.seen_recently@) == marked(w.sighted@[i].seen_recently@).union(marked(w.sighted@[i].seen@))
}

/// What one pass of sight does to world `a`, giving `b`.
pub open spec fn perspective_done(a: &GameWorld, b: &GameWorld) -> bool {
    &&& b.same_besides_sighted(a)
    &&& forall|i: usize| #[trigger] b.sighted@.contains_key(i) == a.sighted@.contains_key(i)
    &&& forall|i: usize|
        #[trigger] a.sighted@.contains_key(i) ==> if viewer(a, i) {
            refreshed(a, i, b.sighted@[i])
        } else {
            b.sighted@[i] == a.sighted@[i]
        }
}

/// The system that recomputes what each viewer sees.
pub struct Perspective;

impl Perspective {
    /// Every live viewer on the grid sees anew: the entities on the cells that
    /// its rays reach. What it saw until now is added to what it remembers.
    pub fn run(&self, world: &mut GameWorld)
        requires
            old(world).wf(),
        ensures
            final(world).wf(),
            perspective_done(old(world), final(world)),
    {
        let n = world.entities.len();
        let width = world.parameters.width;
        let height = world.parameters.height;
        let opaque = opaque_grid(world);
        let mut fresh: Vec<Option<Sighted>> = Vec::new();
        let mut i: usize = 0;
        while i < n
            invariant
                0 <= i <= n,
                n == world.entities.count(),
                *world == *old(world),
                world.wf(),
                width == world.parameters.width,
                height == world.parameters.height,
                opaque@.len() == width * height,
                forall|c: int| 0 <= c < opaque@.len() ==> opaque@[c] == opaque_at(world, cell_at(c, width)),
                fresh@.len() == i,
                forall|k: int| 0 <= k < i ==> (fresh@[k] is Some) == viewer(world, k as usize),
                forall|k: int| 0 <= k < i && #[trigger] fresh@[k] is Some ==> refreshed(world, k as usize, fresh@[k]->0),
            decreases n - i,
        {
            let e = Entity { id: i };
            let mut entry: Option<Sighted> = None;
            if world.entities.is_alive(e) && !world.entities.is_doomed(e) {
                if let Some(s) = world.sighted.get(e) {
                    if let Some(o) = world.lookup.position_of(e) {
                        proof {
                            world.lookup.lemma_consistent(e, o);
                        }
                        let cells = seen_cells(world, &opaque, o);
                        let bits = entities_on(world, &cells);
                        let recent = union_bits(&s.seen_recently, &s.seen);
                        proof {
                            world.entities.lemma_bounds();
                            assert forall|j: usize| marked(bits@).contains(j) == sight_of(world, i).contains(j) by {
                                if world.placed().contains_key(j) {
                                    lemma_cell_index(world.placed()[j], width, height);
                                    world.lookup.lemma_consistent(Entity { id: j }, world.placed()[j]);
                                    assert(j < world.entities.count());
                                }
                            }
                            assert(marked(bits@) =~= sight_of(world, i));
                        }
                        entry = Some(Sighted { seen: bits, seen_recently: recent });
                    }
                }
            }
            fresh.push(entry);
            i = i + 1;
        }
        let ghost w0 = *world;
        let ghost all = fresh@;
        let mut j: usize = n;
        while j > 0
            invariant
                0 <= j <= n,
                n == w0.entities.count(),
                w0 == *old(world),
                world.wf(),
                world.same_besides_sighted(&w0),
                all.len() == n,
                fresh@ == all.take(j as int),
                forall|k: int| 0 <= k < n ==> (all[k] is Some) == viewer(&w0, k as usize),
                forall|k: int| 0 <= k < n && #[trigger] all[k] is Some ==> refreshed(&w0, k as usize, all[k]->0),
                forall|k: usize| #[trigger] world.sighted@.contains_key(k) == w0.sighted@.contains_key(k),
                forall|k: usize|
                    #[trigger] w0.sighted@.contains_key(k) ==> if j <= k && viewer(&w0, k) {
                        refreshed(&w0, k, world.sighted@[k])
                    } else {
                        world.sighted@[k] == w0.sighted@[k]
                    },
            decreases j,
        {
            let taken = fresh.pop().unwrap();
            j = j - 1;
            assert(taken == all[j as int]);
            assert(fresh@ =~= all.take(j as int));
            if let Some(s) = taken {
                let e = Entity { id: j };
                world.sighted.insert(e, s);
                assert(keys_alive(world.sighted@, world.entities.alive()));
                assert(world.placed() =~= w0.placed());
            }
        }
        proof {
            w0.entities.lemma_bounds();
        }
    }
}

} // verus!
