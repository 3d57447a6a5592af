use vstd::prelude::*;

use crate::world::WorldPosition;

verus! {

/// Steps taken along each axis after `n` steps of a ray whose direction has
/// absolute components `adx` and `ady`. The ray starts at the centre of its
/// cell and always crosses the nearer cell border next; on a tie it steps
/// along `y` (this is the grid walk of Amanatides and Woo, in integers).
pub open spec fn ray_steps(adx: nat, ady: nat, n: nat) -> (nat, nat)
    decreases n,
{
    if n == 0 {
        (0, 0)
    } else {
        let (kx, ky) = ray_steps(adx, ady, (n - 1) as nat);
        if (2 * kx + 1) * ady < (2 * ky + 1) * adx {
            ((kx + 1) as nat, ky)
        } else {
            (kx, (ky + 1) as nat)
        }
    }
}

/// Every step of a ray is along exactly one axis.
pub proof fn lemma_ray_steps_sum(adx: nat, ady: nat, n: nat)
    ensures
        ray_steps(adx, ady, n).0 + ray_steps(adx, ady, n).1 == n,
    decreases n,
{
    if n > 0 {
        lemma_ray_steps_sum(adx, ady, (n - 1) as nat);
    }
}

pub open spec fn abs(v: int) -> nat {
    if v < 0 {
        (-v) as nat
    } else {
        v as nat
    }
}

/// The `n`-th point of the ray from `origin` in direction `(dx, dy)`; `x`
/// grows along the ray when `dx > 0`, `y` when `dy > 0`.
pub open spec fn ray_point(origin: WorldPosition, dx: int, dy: int, n: nat) -> (int, int) {
    let (kx, ky) = ray_steps(abs(dx), abs(dy), n);
    (
        if dx > 0 { origin.x + kx } else { origin.x - kx },
        if dy > 0 { origin.y + ky } else { origin.y - ky },
    )
}

/// `pt` lies on the grid whose last cell is `max`.
pub open spec fn on_grid(pt: (int, int), max: WorldPosition) -> bool {
    0 <= pt.0 <= max.x && 0 <= pt.1 <= max.y
}

pub open spec fn to_cell(pt: (int, int)) -> WorldPosition {
    WorldPosition { x: pt.0 as u64, y: pt.1 as u64 }
}

/// Largest absolute direction component a ray accepts.
pub const MAX_COMPONENT: u64 = 0xFFFF_FFFF;

/// A ray walked cell by cell across the grid.
pub struct Raycast {
    pub origin: WorldPosition,
    pub current: WorldPosition,
    pub kx: u64,
    pub ky: u64,
    pub adx: u64,
    pub ady: u64,
    pub dx_positive: bool,
    pub dy_positive: bool,
    pub max_position: WorldPosition,
}

impl Raycast {
    pub open spec fn dx(&self) -> int {
        if self.dx_positive { self.adx as int } else { -self.adx }
    }

    pub open spec fn dy(&self) -> int {
        if self.dy_positive { self.ady as int } else { -self.ady }
    }

    /// Steps taken so far.
    pub open spec fn steps(&self) -> nat {
        (self.kx + self.ky) as nat
    }

    pub open spec fn wf(&self) -> bool {
        &&& self.adx <= MAX_COMPONENT
        &&& self.ady <= MAX_COMPONENT
        &&& self.dx_positive ==> self.adx > 0
        &&& self.dy_positive ==> self.ady > 0
        &&& (self.kx as nat, self.ky as nat) == ray_steps(self.adx as nat, self.ady as nat, self.steps())
        &&& ray_point(self.origin, self.dx(), self.dy(), self.steps()) == (
            self.current.x as int,
            self.current.y as int,
        )
        &&& self.current.x <= self.max_position.x
        &&& self.current.y <= self.max_position.y
    }

    /// A ray from `world_position` in direction `(dx, dy)` on the grid whose
    /// last cell is `max_position`.
    pub fn new(world_position: WorldPosition, max_position: WorldPosition, dx: i64, dy: i64) -> (r: Raycast)
        requires
            -MAX_COMPONENT <= dx <= MAX_COMPONENT,
            -MAX_COMPONENT <= dy <= MAX_COMPONENT,
            world_position.x <= max_position.x,
            world_position.y <= max_position.y,
        ensures
            r.wf(),
            r.origin == world_position,
            r.max_position == max_position,
            r.dx() == dx,
            r.dy() == dy,
            r.steps() == 0,
    {
        let adx: u64 = if dx < 0 { (-dx) as u64 } else { dx as u64 };
        let ady: u64 = if dy < 0 { (-dy) as u64 } else { dy as u64 };
        Raycast {
            origin: world_position,
            current: world_position,
            kx: 0,
            ky: 0,
            adx,
            ady,
            dx_positive: dx > 0,
            dy_positive: dy > 0,
            max_position,
        }
    }

    /// The next cell of the ray, or none (leaving the ray as it is) when
    /// that cell is off the grid.
    pub fn next(&mut self) -> (r: Option<WorldPosition>)
        requires
            old(self).wf(),
        ensures
            ({
                let pt = ray_point(old(self).origin, old(self).dx(), old(self).dy(), old(self).steps() + 1);
                &&& on_grid(pt, old(self).max_position) ==> {
                    &&& r == Some(to_cell(pt))
                    &&& final(self).wf()
                    &&& final(self).steps() == old(self).steps() + 1
                    &&& final(self).origin == old(self).origin
                    &&& final(self).max_position == old(self).max_position
                    &&& final(self).dx() == old(self).dx()
                    &&& final(self).dy() == old(self).dy()
                    &&& final(self).current == to_cell(pt)
                }
                &&& !on_grid(pt, old(self).max_position) ==> r is None && *final(self) == *old(self)
            }),
    {
        let ghost n = self.steps();
        proof {
            let (a, b, c) = (self.kx as int, self.ady as int, self.ky as int);
            assert((2 * a + 1) * b <= (2 * 0xFFFF_FFFF_FFFF_FFFFint + 1) * 0xFFFF_FFFFint) by (nonlinear_arith)
                requires
                    0 <= a <= 0xFFFF_FFFF_FFFF_FFFF,
                    0 <= b <= 0xFFFF_FFFF,
            ;
            assert((2 * c + 1) * (self.adx as int) <= (2 * 0xFFFF_FFFF_FFFF_FFFFint + 1) * 0xFFFF_FFFFint) by (nonlinear_arith)
                requires
                    0 <= c <= 0xFFFF_FFFF_FFFF_FFFF,
                    0 <= self.adx <= 0xFFFF_FFFF,
            ;
        }
        let lhs: u128 = (2 * (self.kx as u128) + 1) * (self.ady as u128);
        let rhs: u128 = (2 * (self.ky as u128) + 1) * (self.adx as u128);
        proof {
            lemma_ray_steps_sum(self.adx as nat, self.ady as nat, n + 1);
        }
        if lhs < rhs {
            assert(ray_steps(self.adx as nat, self.ady as nat, n + 1) == ((self.kx + 1) as nat, self.ky as nat));
            if self.dx_positive {
                if self.current.x >= self.max_position.x {
                    return None;
                }
                self.current = WorldPosition { x: self.current.x + 1, y: self.current.y };
            } else {
                if self.current.x == 0 {
                    return None;
                }
                self.current = WorldPosition { x: self.current.x - 1, y: self.current.y };
            }
            self.kx = self.kx + 1;
        } else {
            assert(ray_steps(self.adx as nat, self.ady as nat, n + 1) == (self.kx as nat, (self.ky + 1) as nat));
            if self.dy_positive {
                if self.current.y >= self.max_position.y {
                    return None;
                }
                self.current = WorldPosition { x: self.current.x, y: self.current.y + 1 };
            } else {
                if self.current.y == 0 {
                    return None;
                }
                self.current = WorldPosition { x: self.current.x, y: self.current.y - 1 };
            }
            self.ky = self.ky + 1;
        }
        Some(self.current)
    }
}

} // verus!
