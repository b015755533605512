//! Integer geometry of the hex grid.
//!
//! Cells are addressed by two `i32` coordinates.  Contracts speak of points
//! as pairs of mathematical integers, so that a neighbour of a cell at the
//! edge of the `i32` range is still a point, only one that no grid can hold.

use vstd::prelude::*;

verus! {

/// A point of the plane in contracts: `(x, y)`.
pub type Pt = (int, int);

/// Whether both coordinates of `p` fit a cell address.
pub open spec fn in_range(p: Pt) -> bool {
    &&& i32::MIN <= p.0 <= i32::MAX
    &&& i32::MIN <= p.1 <= i32::MAX
}

/// The point `p` moved by `d`.
pub open spec fn pt_add(p: Pt, d: Pt) -> Pt {
    (p.0 + d.0, p.1 + d.1)
}

/// The fixed total order of points: by `x`, then by `y`.
pub open spec fn pt_lt(a: Pt, b: Pt) -> bool {
    a.0 < b.0 || (a.0 == b.0 && a.1 < b.1)
}

/// Address of a cell.
#[derive(Clone, Copy, Debug, PartialEq, Eq, Hash, Structural)]
pub struct CellVector {
    pub x: i32,
    pub y: i32,
}

impl View for CellVector {
    type V = Pt;

    open spec fn view(&self) -> Pt {
        (self.x as int, self.y as int)
    }
}

/// Makes the address `(x, y)`.
pub fn vec2(x: i32, y: i32) -> (v: CellVector)
    ensures
        v@ == (x as int, y as int),
{
    CellVector { x, y }
}

impl CellVector {
    /// The address `self + (dx, dy)`, or `None` where it leaves the `i32` range.
    pub fn offset(self, dx: i32, dy: i32) -> (r: Option<CellVector>)
        ensures
            match r {
                Some(v) => v@ == pt_add(self@, (dx as int, dy as int)),
                None => !in_range(pt_add(self@, (dx as int, dy as int))),
            },
    {
        let nx: i64 = self.x as i64 + dx as i64;
        let ny: i64 = self.y as i64 + dy as i64;
        if nx < i32::MIN as i64 || nx > i32::MAX as i64 || ny < i32::MIN as i64 || ny > i32::MAX as i64 {
            None
        } else {
            Some(CellVector { x: nx as i32, y: ny as i32 })
        }
    }

    /// The address `self + other`, or `None` where it leaves the `i32` range.
    pub fn plus(self, other: CellVector) -> (r: Option<CellVector>)
        ensures
            match r {
                Some(v) => v@ == pt_add(self@, other@),
                None => !in_range(pt_add(self@, other@)),
            },
    {
        self.offset(other.x, other.y)
    }

    /// The neighbour of `self` in direction `dir`, if it is addressable.
    pub fn step(self, dir: Dir6) -> (r: Option<CellVector>)
        ensures
            match r {
                Some(v) => v@ == pt_add(self@, dir.delta()),
                None => !in_range(pt_add(self@, dir.delta())),
            },
    {
        let d = dir.to_v2();
        self.offset(d.x, d.y)
    }

    /// Whether `self` comes before `other` in the fixed order of points.
    pub fn precedes(self, other: CellVector) -> (b: bool)
        ensures
            b == pt_lt(self@, other@),
    {
        self.x < other.x || (self.x == other.x && self.y < other.y)
    }

    /// Number of hex steps between `self` and `other`.
    pub fn hex_dist(self, other: CellVector) -> (d: i64)
        ensures
            d == hex_dist(self@, other@),
    {
        let dx: i64 = self.x as i64 - other.x as i64;
        let dy: i64 = self.y as i64 - other.y as i64;
        let ax: i64 = if dx < 0 { -dx } else { dx };
        let ay: i64 = if dy < 0 { -dy } else { dy };
        let same_sign = (dx < 0 && dy < 0) || (dx == 0 && dy == 0) || (dx > 0 && dy > 0);
        if same_sign {
            if ax > ay { ax } else { ay }
        } else {
            ax + ay
        }
    }
}

/// Absolute value.
pub open spec fn abs(a: int) -> int {
    if a < 0 { -a } else { a }
}

/// Sign of an integer: -1, 0 or 1.
pub open spec fn signum(a: int) -> int {
    if a < 0 { -1 } else if a == 0 { 0 } else { 1 }
}

/// Length of the vector `(dx, dy)` in hex steps: moves along the `(1, 1)`
/// diagonal cover both coordinates at once, so a vector whose coordinates
/// agree in sign costs the larger of the two, any other costs their sum.
pub open spec fn hex_len(dx: int, dy: int) -> int {
    if signum(dx) == signum(dy) {
        if abs(dx) > abs(dy) { abs(dx) } else { abs(dy) }
    } else {
        abs(dx) + abs(dy)
    }
}

/// Number of hex steps from `b` to `a`.
pub open spec fn hex_dist(a: Pt, b: Pt) -> int {
    hex_len(a.0 - b.0, a.1 - b.1)
}

/// The six directions of the hex grid, clockwise from north.
#[derive(Clone, Copy, Debug, PartialEq, Eq, Hash, Structural)]
pub enum Dir6 {
    North,
    Northeast,
    Southeast,
    South,
    Southwest,
    Northwest,
}

impl Dir6 {
    /// Unit step of the direction.
    pub open spec fn delta(self) -> Pt {
        match self {
            Dir6::North => (-1, -1),
            Dir6::Northeast => (0, -1),
            Dir6::Southeast => (1, 0),
            Dir6::South => (1, 1),
            Dir6::Southwest => (0, 1),
            Dir6::Northwest => (-1, 0),
        }
    }

    /// Whether the direction runs along one of the two axes on which walls
    /// are drawn: every direction but north and south.
    pub open spec fn fake_isometric(self) -> bool {
        self != Dir6::North && self != Dir6::South
    }

    /// The direction with number `i` of the clockwise order.
    pub open spec fn nth(i: int) -> Dir6 {
        if i == 0 {
            Dir6::North
        } else if i == 1 {
            Dir6::Northeast
        } else if i == 2 {
            Dir6::Southeast
        } else if i == 3 {
            Dir6::South
        } else if i == 4 {
            Dir6::Southwest
        } else {
            Dir6::Northwest
        }
    }

    /// Unit step of the direction as an address.
    pub fn to_v2(self) -> (v: CellVector)
        ensures
            v@ == self.delta(),
    {
        match self {
            Dir6::North => CellVector { x: -1, y: -1 },
            Dir6::Northeast => CellVector { x: 0, y: -1 },
            Dir6::Southeast => CellVector { x: 1, y: 0 },
            Dir6::South => CellVector { x: 1, y: 1 },
            Dir6::Southwest => CellVector { x: 0, y: 1 },
            Dir6::Northwest => CellVector { x: -1, y: 0 },
        }
    }

    /// Whether the direction runs along a wall axis.
    pub fn is_fake_isometric(self) -> (b: bool)
        ensures
            b == self.fake_isometric(),
    {
        match self {
            Dir6::North => false,
            Dir6::South => false,
            _ => true,
        }
    }

    /// The direction with number `i` of the clockwise order, `i` taken
    /// modulo six.
    pub fn from_index(i: usize) -> (d: Dir6)
        ensures
            d == Dir6::nth((i % 6) as int),
    {
        let k: usize = i % 6;
        if k == 0 {
            Dir6::North
        } else if k == 1 {
            Dir6::Northeast
        } else if k == 2 {
            Dir6::Southeast
        } else if k == 3 {
            Dir6::South
        } else if k == 4 {
            Dir6::Southwest
        } else {
            Dir6::Northwest
        }
    }
}

/// Every direction has a number below six.
pub proof fn lemma_dir_has_index(d: Dir6)
    ensures
        exists|i: int| 0 <= i < 6 && Dir6::nth(i) == d,
{
    match d {
        Dir6::North => assert(Dir6::nth(0) == d),
        Dir6::Northeast => assert(Dir6::nth(1) == d),
        Dir6::Southeast => assert(Dir6::nth(2) == d),
        Dir6::South => assert(Dir6::nth(3) == d),
        Dir6::Southwest => assert(Dir6::nth(4) == d),
        Dir6::Northwest => assert(Dir6::nth(5) == d),
    }
}

/// Whether `q` is one of the six hex neighbours of `p`.
pub open spec fn hex_adjacent(p: Pt, q: Pt) -> bool {
    exists|i: int| 0 <= i < 6 && q == pt_add(p, #[trigger] Dir6::nth(i).delta())
}

/// The four steps along the wall axes, in the order in which they are tried.
pub open spec fn wall_step(i: int) -> Pt {
    if i == 0 {
        (-1, 0)
    } else if i == 1 {
        (0, -1)
    } else if i == 2 {
        (1, 0)
    } else {
        (0, 1)
    }
}

/// The step with number `i` along the wall axes, `i` taken modulo four.
pub fn wall_step_at(i: usize) -> (v: CellVector)
    ensures
        v@ == wall_step((i % 4) as int),
{
    let k: usize = i % 4;
    if k == 0 {
        CellVector { x: -1, y: 0 }
    } else if k == 1 {
        CellVector { x: 0, y: -1 }
    } else if k == 2 {
        CellVector { x: 1, y: 0 }
    } else {
        CellVector { x: 0, y: 1 }
    }
}

/// Hex adjacency is symmetric.
pub proof fn lemma_hex_adjacent_symmetric(p: Pt, q: Pt)
    requires
        hex_adjacent(p, q),
    ensures
        hex_adjacent(q, p),
{
    let i = choose|i: int| 0 <= i < 6 && q == pt_add(p, #[trigger] Dir6::nth(i).delta());
    let j = (i + 3) % 6;
    assert(p == pt_add(q, Dir6::nth(j).delta()));
}

} // verus!
