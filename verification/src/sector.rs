//! Sectors: the rectangles into which each depth of the world is cut.
//!
//! A sector is generated and made connected as one unit.  Its cells are
//! addressed from its own corner while it is dug.

use vstd::prelude::*;
use crate::geom::{CellVector, Dir6, Pt};
use crate::location::Location;

verus! {

/// Number of columns of a sector.
pub const SECTOR_WIDTH: i32 = 38;

/// Number of rows of a sector.
pub const SECTOR_HEIGHT: i32 = 18;

/// A rectangle of one depth of the world.
#[derive(Clone, Copy, Debug, PartialEq, Eq, Hash, Structural)]
pub struct Sector {
    pub x: i8,
    pub y: i8,
    pub z: i16,
}

/// Column of the sector that holds the places with coordinate `x`.
pub open spec fn sector_col(x: int) -> int {
    x / 38
}

/// Row of the sector that holds the places with coordinate `y`.
pub open spec fn sector_row(y: int) -> int {
    y / 18
}

/// How many sectors lie between two places, counted along the columns and
/// the rows.
pub open spec fn sector_distance(a: Location, b: Location) -> int {
    crate::geom::abs(sector_col(a.x as int) - sector_col(b.x as int)) + crate::geom::abs(
        sector_row(a.y as int) - sector_row(b.y as int),
    )
}

/// Whether a step from `loc` leads into a sector that touches the sector
/// of `loc` at a corner only.
pub open spec fn next_to_diagonal(loc: Location) -> bool {
    exists|k: int|
        0 <= k < 6 && sector_distance(
            loc.moved((#[trigger] Dir6::nth(k)).delta().0, Dir6::nth(k).delta().1),
            loc,
        ) > 1
}

fn col_of(x: i16) -> (c: i32)
    ensures
        c == sector_col(x as int),
{
    let a: i32 = x as i32;
    if a >= 0 {
        a / 38
    } else {
        -((-a - 1) / 38) - 1
    }
}

fn row_of(y: i16) -> (r: i32)
    ensures
        r == sector_row(y as int),
{
    let a: i32 = y as i32;
    if a >= 0 {
        a / 18
    } else {
        -((-a - 1) / 18) - 1
    }
}

/// Whether a step from `loc` leads into a sector that touches the sector
/// of `loc` at a corner only.  Such places are kept out of what is dug, so
/// that no hole opens between two sectors that meet at a corner.
pub fn is_next_to_diagonal_sector(loc: Location) -> (b: bool)
    ensures
        b == next_to_diagonal(loc),
{
    let c0 = col_of(loc.x);
    let r0 = row_of(loc.y);
    let mut k: usize = 0;
    while k < 6
        invariant
            k <= 6,
            c0 == sector_col(loc.x as int),
            r0 == sector_row(loc.y as int),
            forall|j: int|
                0 <= j < k ==> sector_distance(
                    loc.moved((#[trigger] Dir6::nth(j)).delta().0, Dir6::nth(j).delta().1),
                    loc,
                ) <= 1,
        decreases 6 - k,
    {
        let d = Dir6::from_index(k);
        assert(d == Dir6::nth(k as int));
        let n = loc.shifted(d.to_v2());
        let dc = col_of(n.x) - c0;
        let dr = row_of(n.y) - r0;
        let ac = if dc < 0 { -dc } else { dc };
        let ar = if dr < 0 { -dr } else { dr };
        if ac + ar > 1 {
            return true;
        }
        k += 1;
    }
    false
}

impl Sector {
    pub fn new(x: i8, y: i8, z: i16) -> (s: Sector)
        ensures
            s == (Sector { x, y, z }),
    {
        Sector { x, y, z }
    }

    /// The corner of the sector from which its cells are addressed.
    pub open spec fn corner(self) -> Location {
        Location { x: (self.x * 38) as i16, y: (self.y * 18) as i16, z: self.z }
    }

    /// The place of the cell that the sector addresses as `p`.
    pub open spec fn place(self, p: Pt) -> Location {
        self.corner().moved(p.0, p.1)
    }

    /// Whether `p` addresses a cell within the sector.
    pub open spec fn within(p: Pt) -> bool {
        0 <= p.0 < 38 && 0 <= p.1 < 18
    }

    /// The corner of the sector from which its cells are addressed.
    pub fn origin(self) -> (loc: Location)
        ensures
            loc == self.corner(),
    {
        Location { x: (self.x as i16) * 38, y: (self.y as i16) * 18, z: self.z }
    }

    /// The place of the cell that the sector addresses as `pos`.
    pub fn loc(self, pos: CellVector) -> (loc: Location)
        ensures
            loc == self.place(pos@),
    {
        self.origin().shifted(pos)
    }

    /// The places of the sector, row by row.
    pub fn iter(self) -> (out: Vec<Location>)
        ensures
            out@.len() == 38 * 18,
            forall|u: int, v: int|
                0 <= u < 38 && 0 <= v < 18 ==> #[trigger] out@[v * 38 + u] == self.place((u, v)),
    {
        let mut out: Vec<Location> = Vec::new();
        let mut v: i32 = 0;
        while v < SECTOR_HEIGHT
            invariant
                0 <= v <= 18,
                out@.len() == v * 38,
                forall|a: int, b: int|
                    0 <= a < 38 && 0 <= b < v ==> #[trigger] out@[b * 38 + a] == self.place((a, b)),
            decreases 18 - v,
        {
            let mut u: i32 = 0;
            while u < SECTOR_WIDTH
                invariant
                    0 <= u <= 38,
                    0 <= v < 18,
                    out@.len() == v * 38 + u,
                    forall|a: int, b: int|
                        0 <= a < 38 && 0 <= b < v ==> #[trigger] out@[b * 38 + a] == self.place(
                            (a, b),
                        ),
                    forall|a: int| 0 <= a < u ==> #[trigger] out@[v * 38 + a] == self.place((a, v as int)),
                decreases 38 - u,
            {
                let ghost before = out@;
                out.push(self.loc(CellVector { x: u, y: v }));
                proof {
                    assert forall|a: int, b: int| 0 <= a < 38 && 0 <= b < v implies #[trigger] out@[b
                        * 38 + a] == self.place((a, b)) by {
                        assert(out@[b * 38 + a] == before[b * 38 + a]);
                    }
                    assert forall|a: int| 0 <= a < u + 1 implies #[trigger] out@[v * 38 + a]
                        == self.place((a, v as int)) by {
                        if a < u {
                            assert(out@[v * 38 + a] == before[v * 38 + a]);
                        }
                    }
                }
                u += 1;
            }
            v += 1;
        }
        out
    }

    /// The cells of the sector that may be dug, as the sector addresses
    /// them, row by row: all but those from which a step leads into a
    /// sector that touches this one at a corner only.
    pub fn domain(self) -> (out: Vec<CellVector>)
        ensures
            forall|p: Pt|
                (exists|i: int| 0 <= i < out@.len() && #[trigger] out@[i]@ == p) <==> (Sector::within(p)
                    && !next_to_diagonal(self.place(p))),
            forall|i: int, j: int|
                0 <= i < j < out@.len() ==> (#[trigger] out@[i]).y < (#[trigger] out@[j]).y || (out@[i].y
                    == out@[j].y && out@[i].x < out@[j].x),
    {
        let mut out: Vec<CellVector> = Vec::new();
        let mut v: i32 = 0;
        while v < SECTOR_HEIGHT
            invariant
                0 <= v <= 18,
                forall|i: int| 0 <= i < out@.len() ==> (#[trigger] out@[i]).y < v,
                forall|p: Pt|
                    (exists|i: int| 0 <= i < out@.len() && #[trigger] out@[i]@ == p) <==> (
                    Sector::within(p) && p.1 < v && !next_to_diagonal(self.place(p))),
                forall|i: int, j: int|
                    0 <= i < j < out@.len() ==> (#[trigger] out@[i]).y < (#[trigger] out@[j]).y || (
                    out@[i].y == out@[j].y && out@[i].x < out@[j].x),
            decreases 18 - v,
        {
            let mut u: i32 = 0;
            while u < SECTOR_WIDTH
                invariant
                    0 <= u <= 38,
                    0 <= v < 18,
                    forall|i: int|
                        0 <= i < out@.len() ==> (#[trigger] out@[i]).y < v || (out@[i].y == v
                            && out@[i].x < u),
                    forall|p: Pt|
                        (exists|i: int| 0 <= i < out@.len() && #[trigger] out@[i]@ == p) <==> (
                        Sector::within(p) && (p.1 < v || (p.1 == v && p.0 < u)) && !next_to_diagonal(
                            self.place(p),
                        )),
                    forall|i: int, j: int|
                        0 <= i < j < out@.len() ==> (#[trigger] out@[i]).y < (#[trigger] out@[j]).y
                            || (out@[i].y == out@[j].y && out@[i].x < out@[j].x),
                decreases 38 - u,
            {
                let pos = CellVector { x: u, y: v };
                let ghost before = out@;
                let skip = is_next_to_diagonal_sector(self.loc(pos));
                assert(skip == next_to_diagonal(self.place(pos@)));
                if !skip {
                    out.push(pos);
                }
                proof {
                    assert forall|i: int| 0 <= i < out@.len() implies (#[trigger] out@[i]).y < v || (
                    out@[i].y == v && out@[i].x < u + 1) by {
                        if i < before.len() {
                            assert(out@[i] == before[i]);
                        }
                    }
                    assert forall|i: int, j: int| 0 <= i < j < out@.len() implies (#[trigger] out@[i]).y
                        < (#[trigger] out@[j]).y || (out@[i].y == out@[j].y && out@[i].x
                        < out@[j].x) by {
                        assert(out@[i] == before[i]);
                        if j < before.len() {
                            assert(out@[j] == before[j]);
                        }
                    }
                    assert forall|p: Pt|
                        (exists|i: int| 0 <= i < out@.len() && #[trigger] out@[i]@ == p) <==> (
                        Sector::within(p) && (p.1 < v || (p.1 == v && p.0 < u + 1))
                            && !next_to_diagonal(self.place(p))) by {
                        let lhs = exists|i: int| 0 <= i < out@.len() && #[trigger] out@[i]@ == p;
                        let rhs = Sector::within(p) && (p.1 < v || (p.1 == v && p.0 < u + 1))
                            && !next_to_diagonal(self.place(p));
                        let was = exists|i: int| 0 <= i < before.len() && #[trigger] before[i]@ == p;
                        let was_due = Sector::within(p) && (p.1 < v || (p.1 == v && p.0 < u))
                            && !next_to_diagonal(self.place(p));
                        assert(was <==> was_due);
                        if lhs {
                            let i = choose|i: int| 0 <= i < out@.len() && #[trigger] out@[i]@ == p;
                            if i < before.len() {
                                assert(out@[i] == before[i]);
                                assert(before[i]@ == p);
                                assert(was);
                                assert(rhs);
                            } else {
                                assert(!skip);
                                assert(out@[i] == pos);
                                assert(p == pos@);
                                assert(Sector::within(pos@));
                                assert(rhs);
                            }
                        }
                        if rhs {
                            if p == pos@ {
                                assert(!skip);
                                assert(out@[before.len() as int]@ == p);
                                assert(lhs);
                            } else {
                                assert(p.1 < v || (p.1 == v && p.0 < u));
                                assert(was_due);
                                assert(was);
                                let i = choose|i: int| 0 <= i < before.len() && #[trigger] before[i]@ == p;
                                assert(out@[i] == before[i]);
                                assert(out@[i]@ == p);
                                assert(lhs);
                            }
                        }
                    }
                }
                u += 1;
            }
            v += 1;
        }
        out
    }
}

} // verus!
