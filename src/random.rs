use vstd::prelude::*;

use crate::components::Direction;

verus! {

/// Multiplier of the generator (Knuth's MMIX constants).
pub const MULTIPLIER: u64 = 6364136223846793005;

/// Increment of the generator.
pub const INCREMENT: u64 = 1442695040888963407;

/// Successor of a generator state: `state * MULTIPLIER + INCREMENT` modulo 2^64.
#[verifier::opaque]
pub open spec fn next_state(state: u64) -> u64 {
    let m = ((state as nat * MULTIPLIER as nat) % 0x1_0000_0000_0000_0000nat) as u64;
    if m + INCREMENT > u64::MAX {
        (m + INCREMENT - 0x1_0000_0000_0000_0000nat) as u64
    } else {
        (m + INCREMENT) as u64
    }
}

/// The number drawn from a state: the high half of its successor.
pub open spec fn draw_of(state: u64) -> u64 {
    (next_state(state) / 0x1_0000_0000) as u64
}

/// The value in `[low, high]` that a draw `d` selects.
pub open spec fn pick(low: u64, high: u64, d: u64) -> u64 {
    (low + (d as int) % (high - low + 1)) as u64
}

/// The index into a sequence of `len` elements that a draw `d` selects.
pub open spec fn index_of(d: u64, len: nat) -> int {
    (d as int) % (len as int)
}

/// A drawn index lies in the sequence.
pub proof fn lemma_index_of(d: u64, len: nat)
    requires
        len > 0,
    ensures
        0 <= index_of(d, len) < len,
{
    assert(0 <= (d as int) % (len as int) < len) by (nonlinear_arith)
        requires
            len > 0,
    ;
}

/// The direction that a draw `d` selects.
pub open spec fn direction_of(d: u64) -> Direction {
    let i = d % 4;
    if i == 0 {
        Direction::Right
    } else if i == 1 {
        Direction::Left
    } else if i == 2 {
        Direction::Up
    } else {
        Direction::Down
    }
}

/// A seedable source of uniform draws, so that a seed fixes a whole run.
#[derive(Clone, Copy, Debug, PartialEq, Eq, Structural)]
pub struct Rng {
    pub state: u64,
}

impl Rng {
    pub fn new(seed: u64) -> (r: Rng)
        ensures
            r.state == seed,
    {
        Rng { state: seed }
    }

    /// Advances the state and draws a number below 2^32.
    pub fn next(&mut self) -> (r: u64)
        ensures
            final(self).state == next_state(old(self).state),
            r == draw_of(old(self).state),
            r < 0x1_0000_0000,
    {
        proof {
            reveal(next_state);
        }
        self.state = self.state.wrapping_mul(MULTIPLIER).wrapping_add(INCREMENT);
        self.state / 0x1_0000_0000
    }
}

/// A number in `[x, y]`, both ends included.
pub fn random_in_range(rng: &mut Rng, x: u64, y: u64) -> (r: u64)
    requires
        x <= y,
    ensures
        final(rng).state == next_state(old(rng).state),
        r == pick(x, y, draw_of(old(rng).state)),
        x <= r <= y,
{
    let d = rng.next();
    if y - x == u64::MAX {
        assert((d as int) % (y - x + 1) == d) by (nonlinear_arith)
            requires
                d < 0x1_0000_0000,
                y - x + 1 == 0x1_0000_0000_0000_0000,
        ;
        d
    } else {
        x + d % (y - x + 1)
    }
}

/// A random index into `vector`; none when it is empty, and then no draw is made.
pub fn random_index_vec<T>(rng: &mut Rng, vector: &Vec<T>) -> (r: Option<usize>)
    ensures
        vector@.len() == 0 ==> r is None && *final(rng) == *old(rng),
        vector@.len() > 0 ==> final(rng).state == next_state(old(rng).state) && r is Some && r->0 as int
            == index_of(draw_of(old(rng).state), vector@.len()),
{
    if vector.len() == 0 {
        return None;
    }
    let len = vector.len();
    let i = random_in_range(rng, 0, (len - 1) as u64);
    Some(i as usize)
}

/// A random element of `vector`; none when it is empty.
pub fn random_in_vec<'a, T>(rng: &mut Rng, vector: &'a Vec<T>) -> (r: Option<&'a T>)
    ensures
        vector@.len() == 0 ==> r is None && *final(rng) == *old(rng),
        vector@.len() > 0 ==> final(rng).state == next_state(old(rng).state),
        vector@.len() > 0 ==> r is Some,
        vector@.len() > 0 ==> r->0 == vector@[index_of(draw_of(old(rng).state), vector@.len())],
{
    proof {
        if vector@.len() > 0 {
            lemma_index_of(draw_of(old(rng).state), vector@.len());
        }
    }
    match random_index_vec(rng, vector) {
        Some(i) => {
            Some(&vector[i])
        },
        None => None,
    }
}

/// Takes a random element out of `vector`; none when it is empty.
pub fn random_in_vec_and_remove<T>(rng: &mut Rng, vector: &mut Vec<T>) -> (r: Option<T>)
    ensures
        old(vector)@.len() == 0 ==> r is None && *final(rng) == *old(rng) && final(vector)@ == old(
            vector,
        )@,
        old(vector)@.len() > 0 ==> {
            let i = index_of(draw_of(old(rng).state), old(vector)@.len());
            &&& final(rng).state == next_state(old(rng).state)
            &&& r == Some(old(vector)@[i])
            &&& final(vector)@ == old(vector)@.remove(i)
        },
{
    proof {
        if vector@.len() > 0 {
            lemma_index_of(draw_of(old(rng).state), vector@.len());
        }
    }
    match random_index_vec(rng, vector) {
        Some(i) => Some(vector.remove(i)),
        None => None,
    }
}

impl Direction {
    /// A direction drawn uniformly.
    pub fn random(rng: &mut Rng) -> (d: Direction)
        ensures
            final(rng).state == next_state(old(rng).state),
            d == direction_of(draw_of(old(rng).state)),
    {
        let directions = vec![Direction::Right, Direction::Left, Direction::Up, Direction::Down];
        let d = random_in_vec(rng, &directions);
        *d.unwrap()
    }
}

} // verus!
