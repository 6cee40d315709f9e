//! The random source that drives the maze growth, backed by `rand`.

use vstd::prelude::*;
use rand::Rng;
use rand::RngCore;

verus! {

#[verifier::external_type_specification]
#[verifier::external_body]
pub struct ExStdRng(rand::rngs::StdRng);

/// Relies on `Rng::gen_range` over `0..n`: a value drawn uniformly below `n`; it
/// panics on an empty range, which `requires` leaves out.
#[verifier::external_body]
pub(crate) fn random_below(rng: &mut rand::rngs::StdRng, n: usize) -> (r: usize)
    requires
        n > 0,
    ensures
        r < n,
{
    rng.gen_range(0..n)
}

/// Relies on `RngCore::next_u32`: a uniformly drawn 32-bit value.
#[verifier::external_body]
pub(crate) fn random_u32(rng: &mut rand::rngs::StdRng) -> (r: u32) {
    rng.next_u32()
}

/// One of the four cardinal directions of the grid.
#[derive(Clone, Copy, PartialEq, Eq, Structural, Debug)]
pub enum Direction {
    Up,
    Down,
    Left,
    Right,
}

/// The direction that a drawn 32-bit value selects: its remainder modulo four.
pub open spec fn direction_of(n: u32) -> Direction {
    if n % 4 == 0 {
        Direction::Up
    } else if n % 4 == 1 {
        Direction::Down
    } else if n % 4 == 2 {
        Direction::Left
    } else {
        Direction::Right
    }
}

impl Direction {
    /// The direction selected by `n`, each direction taking a quarter of the values.
    pub fn from_u32(n: u32) -> (d: Direction)
        ensures
            d == direction_of(n),
    {
        match n % 4 {
            0 => Direction::Up,
            1 => Direction::Down,
            2 => Direction::Left,
            _ => Direction::Right,
        }
    }

    /// A direction drawn uniformly from the four.
    pub fn rand(rng: &mut rand::rngs::StdRng) -> (d: Direction)
        ensures
            exists|n: u32| d == direction_of(n),
    {
        let n = random_u32(rng);
        Direction::from_u32(n)
    }
}

} // verus!
