//! The eight Moore directions of the grid, listed counter-clockwise.
//! A brain's orientation is a number of quarter turns; one quarter turn
//! advances a direction by two places in this listing.
use vstd::prelude::*;

verus! {

#[derive(Clone, Copy, PartialEq, Eq, Structural, Debug)]
pub enum Direction {
    Right,
    UpRight,
    Up,
    UpLeft,
    Left,
    DownLeft,
    Down,
    DownRight,
}

/// Position of a direction in the counter-clockwise listing.
pub open spec fn spec_dir_index(d: Direction) -> int {
    match d {
        Direction::Right => 0,
        Direction::UpRight => 1,
        Direction::Up => 2,
        Direction::UpLeft => 3,
        Direction::Left => 4,
        Direction::DownLeft => 5,
        Direction::Down => 6,
        Direction::DownRight => 7,
    }
}

/// The direction at a given position of the counter-clockwise listing.
pub open spec fn spec_dir_from_index(i: int) -> Direction {
    if i == 0 {
        Direction::Right
    } else if i == 1 {
        Direction::UpRight
    } else if i == 2 {
        Direction::Up
    } else if i == 3 {
        Direction::UpLeft
    } else if i == 4 {
        Direction::Left
    } else if i == 5 {
        Direction::DownLeft
    } else if i == 6 {
        Direction::Down
    } else {
        Direction::DownRight
    }
}

/// Turn a direction counter-clockwise by the given number of eighth turns.
pub open spec fn spec_turn(d: Direction, eighths: int) -> Direction {
    spec_dir_from_index((spec_dir_index(d) + eighths) % 8)
}

pub fn dir_index(d: Direction) -> (r: usize)
    ensures
        r == spec_dir_index(d),
{
    match d {
        Direction::Right => 0,
        Direction::UpRight => 1,
        Direction::Up => 2,
        Direction::UpLeft => 3,
        Direction::Left => 4,
        Direction::DownLeft => 5,
        Direction::Down => 6,
        Direction::DownRight => 7,
    }
}

pub fn dir_from_index(i: usize) -> (r: Direction)
    requires
        i < 8,
    ensures
        r == spec_dir_from_index(i as int),
{
    if i == 0 {
        Direction::Right
    } else if i == 1 {
        Direction::UpRight
    } else if i == 2 {
        Direction::Up
    } else if i == 3 {
        Direction::UpLeft
    } else if i == 4 {
        Direction::Left
    } else if i == 5 {
        Direction::DownLeft
    } else if i == 6 {
        Direction::Down
    } else {
        Direction::DownRight
    }
}

/// Turn a direction counter-clockwise by `eighths` eighth turns.
pub fn turn(d: Direction, eighths: usize) -> (r: Direction)
    ensures
        r == spec_turn(d, eighths as int),
{
    let i = dir_index(d);
    let r = dir_from_index((i + eighths % 8) % 8);
    proof {
        assert((spec_dir_index(d) + eighths as int % 8) % 8 == (spec_dir_index(d)
            + eighths as int) % 8) by {
            let di = spec_dir_index(d);
            let e = eighths as int;
            vstd::arithmetic::div_mod::lemma_add_mod_noop(di, e, 8);
            vstd::arithmetic::div_mod::lemma_add_mod_noop(di, e % 8, 8);
            vstd::arithmetic::div_mod::lemma_mod_twice(e, 8);
        }
    }
    r
}

/// Turning by `a` eighths and then by `b` eighths is one turn by `a + b`.
pub proof fn lemma_turn_adds(d: Direction, a: int, b: int)
    requires
        0 <= a,
        0 <= b,
    ensures
        spec_turn(spec_turn(d, a), b) == spec_turn(d, a + b),
{
    let i = spec_dir_index(d);
    assert(0 <= i < 8);
    assert(spec_dir_index(spec_dir_from_index((i + a) % 8)) == (i + a) % 8) by {
        vstd::arithmetic::div_mod::lemma_mod_bound(i + a, 8);
    }
    assert(((i + a) % 8 + b) % 8 == (i + a + b) % 8) by {
        vstd::arithmetic::div_mod::lemma_add_mod_noop(i + a, b, 8);
        vstd::arithmetic::div_mod::lemma_add_mod_noop((i + a) % 8, b, 8);
        vstd::arithmetic::div_mod::lemma_mod_twice(i + a, 8);
    }
}

/// The grid offset one step in a direction takes, as (dx, dy);
/// y grows downward, so `Up` decreases y.
pub open spec fn spec_dir_delta(d: Direction) -> (int, int) {
    match d {
        Direction::Right => (1, 0),
        Direction::UpRight => (1, -1),
        Direction::Up => (0, -1),
        Direction::UpLeft => (-1, -1),
        Direction::Left => (-1, 0),
        Direction::DownLeft => (-1, 1),
        Direction::Down => (0, 1),
        Direction::DownRight => (1, 1),
    }
}

pub fn dir_delta(d: Direction) -> (r: (i8, i8))
    ensures
        (r.0 as int, r.1 as int) == spec_dir_delta(d),
{
    match d {
        Direction::Right => (1, 0),
        Direction::UpRight => (1, -1),
        Direction::Up => (0, -1),
        Direction::UpLeft => (-1, -1),
        Direction::Left => (-1, 0),
        Direction::DownLeft => (-1, 1),
        Direction::Down => (0, 1),
        Direction::DownRight => (1, 1),
    }
}

} // verus!
