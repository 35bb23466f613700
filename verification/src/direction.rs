use vstd::prelude::*;

verus! {

/// One of the four axis-aligned headings on the grid. Rows grow downwards.
#[derive(Clone, Copy, Debug, PartialEq, Eq, Structural)]
pub enum Direction {
    Up,
    Down,
    Left,
    Right,
}

impl Direction {
    /// The unit step of this heading as `(dx, dy)`.
    pub open spec fn delta(self) -> (int, int) {
        match self {
            Direction::Up => (0, -1),
            Direction::Down => (0, 1),
            Direction::Left => (-1, 0),
            Direction::Right => (1, 0),
        }
    }

    /// The heading that points the other way.
    pub open spec fn reversed(self) -> Direction {
        match self {
            Direction::Up => Direction::Down,
            Direction::Down => Direction::Up,
            Direction::Left => Direction::Right,
            Direction::Right => Direction::Left,
        }
    }

    /// Position of this heading in the fixed preference order
    /// Up, Left, Down, Right that settles ties.
    pub open spec fn rank(self) -> int {
        match self {
            Direction::Up => 0,
            Direction::Left => 1,
            Direction::Down => 2,
            Direction::Right => 3,
        }
    }

    /// The heading at position `rank` of the preference order.
    pub open spec fn of_rank(rank: int) -> Direction {
        if rank == 0 {
            Direction::Up
        } else if rank == 1 {
            Direction::Left
        } else if rank == 2 {
            Direction::Down
        } else {
            Direction::Right
        }
    }

    /// The unit step of this heading as `(dx, dy)`.
    pub fn to_vector(self) -> (v: (i32, i32))
        ensures
            v.0 == self.delta().0,
            v.1 == self.delta().1,
    {
        match self {
            Direction::Up => (0, -1),
            Direction::Down => (0, 1),
            Direction::Left => (-1, 0),
            Direction::Right => (1, 0),
        }
    }

    /// The heading that points the other way.
    pub fn opposite(self) -> (d: Direction)
        ensures
            d == self.reversed(),
    {
        match self {
            Direction::Up => Direction::Down,
            Direction::Down => Direction::Up,
            Direction::Left => Direction::Right,
            Direction::Right => Direction::Left,
        }
    }

    /// The heading at position `rank` (0 to 3) of the preference order
    /// Up, Left, Down, Right.
    pub fn by_rank(rank: u8) -> (d: Direction)
        requires
            rank < 4,
        ensures
            d == Direction::of_rank(rank as int),
            d.rank() == rank,
    {
        if rank == 0 {
            Direction::Up
        } else if rank == 1 {
            Direction::Left
        } else if rank == 2 {
            Direction::Down
        } else {
            Direction::Right
        }
    }
}

/// Reversing twice gives the heading back, and a heading never equals its
/// reverse.
pub proof fn lemma_reversed_involution(d: Direction)
    ensures
        d.reversed().reversed() == d,
        d.reversed() != d,
        Direction::of_rank(d.rank()) == d,
        0 <= d.rank() < 4,
{
}

} // verus!
