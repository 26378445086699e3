//! Program counter: a position on the toroidal playfield and a direction.

use vstd::prelude::*;

verus! {

/// Number of columns of the playfield.
pub const GRID_WIDTH: usize = 80;

/// Number of rows of the playfield.
pub const GRID_HEIGHT: usize = 25;

/// A direction of travel on the playfield.
#[derive(Clone, Copy, Debug, PartialEq, Eq, Hash, Structural)]
pub enum Direction {
    Up,
    Down,
    Left,
    Right,
}

impl Direction {
    /// Horizontal component of one step in this direction.
    pub open spec fn dx(self) -> int {
        match self {
            Direction::Left => -1,
            Direction::Right => 1,
            _ => 0,
        }
    }

    /// Vertical component of one step in this direction.
    pub open spec fn dy(self) -> int {
        match self {
            Direction::Up => -1,
            Direction::Down => 1,
            _ => 0,
        }
    }

    /// The direction with the given number, in the order up, down, left, right.
    pub fn from_index(i: u32) -> (r: Direction)
        requires
            i < 4,
        ensures
            r == direction_of_index(i as int),
    {
        if i == 0 {
            Direction::Up
        } else if i == 1 {
            Direction::Down
        } else if i == 2 {
            Direction::Left
        } else {
            Direction::Right
        }
    }
}

/// The direction numbered `i` in the order up, down, left, right.
pub open spec fn direction_of_index(i: int) -> Direction {
    if i == 0 {
        Direction::Up
    } else if i == 1 {
        Direction::Down
    } else if i == 2 {
        Direction::Left
    } else {
        Direction::Right
    }
}

/// A signed position. Positions on the playfield satisfy `in_grid`.
#[derive(Clone, Copy, Debug, PartialEq, Eq, Hash, Structural)]
pub struct Position {
    pub x: i64,
    pub y: i64,
}

impl Position {
    /// Whether the position names a cell of the playfield.
    pub open spec fn in_grid(self) -> bool {
        0 <= self.x < GRID_WIDTH && 0 <= self.y < GRID_HEIGHT
    }

    /// Index of the cell in row-major order.
    pub open spec fn cell(self) -> int {
        self.y * GRID_WIDTH + self.x
    }

    /// The position one step away in direction `d`, wrapped around the playfield.
    pub open spec fn neighbour(self, d: Direction) -> Position {
        Position {
            x: ((self.x + d.dx()) % (GRID_WIDTH as int)) as i64,
            y: ((self.y + d.dy()) % (GRID_HEIGHT as int)) as i64,
        }
    }

    /// Row-major index of an in-grid position.
    pub fn cell_index(self) -> (r: usize)
        requires
            self.in_grid(),
        ensures
            r == self.cell(),
            r < GRID_WIDTH * GRID_HEIGHT,
    {
        (self.y as usize) * GRID_WIDTH + (self.x as usize)
    }
}

/// Program counter: where execution stands and where it goes next.
#[derive(Clone, Copy, Debug, PartialEq, Eq, Hash, Structural)]
pub struct PC {
    pub position: Position,
    pub direction: Direction,
}

impl PC {
    /// The program counter at which every program starts: the top left
    /// corner, moving right.
    pub fn start() -> (r: PC)
        ensures
            r == start_pc(),
    {
        PC { position: Position { x: 0, y: 0 }, direction: Direction::Right }
    }

    /// Whether the position is on the playfield.
    pub open spec fn valid(self) -> bool {
        self.position.in_grid()
    }

    /// The program counter after one step, wrapped around the playfield.
    pub open spec fn stepped(self) -> PC {
        PC { position: self.position.neighbour(self.direction), direction: self.direction }
    }

    /// The program counter that leaves this one's cell in direction `d`.
    pub open spec fn turned(self, d: Direction) -> PC {
        PC { position: self.position.neighbour(d), direction: d }
    }

    /// Index of this program counter among all valid ones, the key of the
    /// block cache.
    pub open spec fn key(self) -> int {
        self.position.cell() * 4 + match self.direction {
            Direction::Up => 0int,
            Direction::Down => 1,
            Direction::Left => 2,
            Direction::Right => 3,
        }
    }

    /// Moves one cell in the current direction, without wrapping.
    pub fn step(&mut self)
        requires
            -4 * GRID_WIDTH <= old(self).position.x <= 4 * GRID_WIDTH,
            -4 * GRID_HEIGHT <= old(self).position.y <= 4 * GRID_HEIGHT,
        ensures
            final(self).direction == old(self).direction,
            final(self).position.x == old(self).position.x + old(self).direction.dx(),
            final(self).position.y == old(self).position.y + old(self).direction.dy(),
    {
        match self.direction {
            Direction::Up => self.position.y = self.position.y - 1,
            Direction::Down => self.position.y = self.position.y + 1,
            Direction::Left => self.position.x = self.position.x - 1,
            Direction::Right => self.position.x = self.position.x + 1,
        }
    }

    /// Brings a position back onto the playfield, wrapping around: each
    /// coordinate becomes its Euclidean remainder by the width or height.
    /// A coordinate may lie at most one width or height below zero.
    pub fn constrain(&mut self)
        requires
            -(GRID_WIDTH as int) <= old(self).position.x <= i64::MAX - GRID_WIDTH,
            -(GRID_HEIGHT as int) <= old(self).position.y <= i64::MAX - GRID_HEIGHT,
        ensures
            final(self).direction == old(self).direction,
            final(self).position.x == old(self).position.x as int % GRID_WIDTH as int,
            final(self).position.y == old(self).position.y as int % GRID_HEIGHT as int,
            final(self).valid(),
    {
        if !(0 <= self.position.x && self.position.x < GRID_WIDTH as i64) {
            proof {
                vstd::arithmetic::div_mod::lemma_mod_multiples_vanish(1, self.position.x as int, GRID_WIDTH as int);
            }
            self.position.x = (self.position.x + GRID_WIDTH as i64) % GRID_WIDTH as i64;
        }
        if !(0 <= self.position.y && self.position.y < GRID_HEIGHT as i64) {
            proof {
                vstd::arithmetic::div_mod::lemma_mod_multiples_vanish(1, self.position.y as int, GRID_HEIGHT as int);
            }
            self.position.y = (self.position.y + GRID_HEIGHT as i64) % GRID_HEIGHT as i64;
        }
    }

    /// One step in the current direction, wrapping around the playfield.
    pub fn advance(&mut self)
        requires
            old(self).valid(),
        ensures
            *final(self) == old(self).stepped(),
            final(self).valid(),
    {
        self.step();
        self.constrain();
    }

    /// Leaves the current cell in direction `d`.
    pub fn turned_to(self, d: Direction) -> (r: PC)
        requires
            self.valid(),
        ensures
            r == self.turned(d),
            r.valid(),
    {
        let mut r = PC { position: self.position, direction: d };
        r.advance();
        r
    }

    /// The cache key of a valid program counter.
    pub fn key_index(self) -> (r: usize)
        requires
            self.valid(),
        ensures
            r == self.key(),
            r < 4 * GRID_WIDTH * GRID_HEIGHT,
    {
        let d: usize = match self.direction {
            Direction::Up => 0,
            Direction::Down => 1,
            Direction::Left => 2,
            Direction::Right => 3,
        };
        self.position.cell_index() * 4 + d
    }
}

/// The program counter at which every program starts.
pub open spec fn start_pc() -> PC {
    PC { position: Position { x: 0, y: 0 }, direction: Direction::Right }
}

/// Two in-grid positions share a cell index only if they are equal.
pub proof fn lemma_cell_injective(a: Position, b: Position)
    requires
        a.in_grid(),
        b.in_grid(),
        a.cell() == b.cell(),
    ensures
        a == b,
{
}

/// Two valid program counters share a cache key only if they are equal.
pub proof fn lemma_key_injective(a: PC, b: PC)
    requires
        a.valid(),
        b.valid(),
        a.key() == b.key(),
    ensures
        a == b,
{
}

/// Stepping off an edge of the playfield enters it again at the opposite
/// edge, in the same row or column; a step that stays on the playfield moves
/// by one cell.
pub proof fn lemma_toroidal_wrap(p: PC)
    requires
        p.valid(),
    ensures
        p.stepped().valid(),
        p.direction == Direction::Left && p.position.x == 0 ==> p.stepped().position.x == 79,
        p.direction == Direction::Right && p.position.x == 79 ==> p.stepped().position.x == 0,
        p.direction == Direction::Up && p.position.y == 0 ==> p.stepped().position.y == 24,
        p.direction == Direction::Down && p.position.y == 24 ==> p.stepped().position.y == 0,
        p.direction == Direction::Left || p.direction == Direction::Right
            ==> p.stepped().position.y == p.position.y,
        p.direction == Direction::Up || p.direction == Direction::Down
            ==> p.stepped().position.x == p.position.x,
        0 <= p.position.x + p.direction.dx() < GRID_WIDTH
            ==> p.stepped().position.x == p.position.x + p.direction.dx(),
        0 <= p.position.y + p.direction.dy() < GRID_HEIGHT
            ==> p.stepped().position.y == p.position.y + p.direction.dy(),
{
}

} // verus!
