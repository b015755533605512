//! Queries that list cells of a grid.
//!
//! The grid is walked in no order of its own, so each list is put into the
//! fixed order of points before it is handed out.

use vstd::prelude::*;
use crate::cell::{CellView, MapCell};
use crate::geom::{CellVector, Pt};
use crate::grid::Grid;
use crate::order::{ascending, keep, lemma_ascending_unique, pts};
use crate::terrain::Terrain;

verus! {

/// The kinds of cell that a query can list.
#[derive(Clone, Copy, Debug, PartialEq, Eq, Structural)]
pub enum Want {
    /// The way into the level.
    Entrance,
    /// The way out of the level.
    Exit,
    /// Cells to stand on that are no part of a wall shell.
    OpenGround,
    /// Cells to stand on.
    Floor,
}

/// Whether a query for `want` lists a cell that holds `c`.
pub open spec fn wanted(want: Want, c: CellView) -> bool {
    match want {
        Want::Entrance => c.terrain == Terrain::Entrance,
        Want::Exit => c.terrain == Terrain::Exit,
        Want::OpenGround => c.walkable() && !c.border(),
        Want::Floor => c.walkable(),
    }
}

/// The points of `world` that a query for `want` lists.
pub open spec fn wanted_set(world: Map<Pt, CellView>, want: Want) -> Set<Pt> {
    Set::new(|p: Pt| world.contains_key(p) && wanted(want, world[p]))
}

fn is_wanted(want: Want, c: &MapCell) -> (b: bool)
    ensures
        b == wanted(want, c@),
{
    match want {
        Want::Entrance => c.terrain == Terrain::Entrance,
        Want::Exit => c.terrain == Terrain::Exit,
        Want::OpenGround => c.is_walkable() && !c.is_border(),
        Want::Floor => c.is_walkable(),
    }
}

/// Two grids that hold the same cells answer every query with the same
/// list: a list in the fixed order is settled by the points it holds.
pub proof fn lemma_query_order(
    a: Map<Pt, CellView>,
    b: Map<Pt, CellView>,
    want: Want,
    x: Seq<CellVector>,
    y: Seq<CellVector>,
)
    requires
        a == b,
        ascending(x),
        ascending(y),
        pts(x) == wanted_set(a, want),
        pts(y) == wanted_set(b, want),
    ensures
        x == y,
{
    lemma_ascending_unique(x, y);
}

impl Grid {
    /// The cells of the kind `want`, in the fixed order.
    pub fn select(&self, want: Want) -> (out: Vec<CellVector>)
        ensures
            ascending(out@),
            pts(out@) == wanted_set(self@, want),
    {
        let cells = self.positions();
        let mut flags: Vec<bool> = Vec::new();
        let mut i: usize = 0;
        while i < cells.len()
            invariant
                i <= cells.len(),
                flags@.len() == i,
                pts(cells@) == self@.dom(),
                forall|k: int|
                    0 <= k < i ==> #[trigger] flags@[k] == wanted(want, self@[cells@[k]@]),
            decreases cells.len() - i,
        {
            assert(pts(cells@).contains(cells@[i as int]@));
            let flag = match self.get(cells[i]) {
                Some(c) => is_wanted(want, c),
                None => false,
            };
            flags.push(flag);
            i += 1;
        }
        let out = keep(&cells, &flags);
        proof {
            assert(pts(out@) =~= wanted_set(self@, want)) by {
                assert forall|p: Pt| wanted_set(self@, want).contains(p) implies pts(out@).contains(
                    p,
                ) by {
                    assert(pts(cells@).contains(p));
                    let k = choose|k: int| 0 <= k < cells@.len() && #[trigger] cells@[k]@ == p;
                    assert(flags@[k]);
                }
                assert forall|p: Pt| pts(out@).contains(p) implies wanted_set(self@, want).contains(
                    p,
                ) by {
                    let k = choose|k: int| 0 <= k < cells@.len() && #[trigger] cells@[k]@ == p && flags@[k];
                    assert(pts(cells@).contains(cells@[k]@));
                }
            }
        }
        out
    }

    /// The cells with the way in, in the fixed order.
    pub fn entrances(&self) -> (out: Vec<CellVector>)
        ensures
            ascending(out@),
            pts(out@) == wanted_set(self@, Want::Entrance),
    {
        self.select(Want::Entrance)
    }

    /// The cells with the way out, in the fixed order.
    pub fn exits(&self) -> (out: Vec<CellVector>)
        ensures
            ascending(out@),
            pts(out@) == wanted_set(self@, Want::Exit),
    {
        self.select(Want::Exit)
    }

    /// The cells to stand on outside wall shells, in the fixed order.
    pub fn open_ground(&self) -> (out: Vec<CellVector>)
        ensures
            ascending(out@),
            pts(out@) == wanted_set(self@, Want::OpenGround),
    {
        self.select(Want::OpenGround)
    }

    /// The cells of which `p` says yes, in the fixed order.
    pub fn find_positions<F: Fn(CellVector, &MapCell) -> bool>(&self, p: F) -> (out: Vec<
        CellVector,
    >)
        requires
            forall|pos: CellVector, c: &MapCell| #[trigger] call_requires(p, (pos, c)),
        ensures
            ascending(out@),
            forall|q: Pt| pts(out@).contains(q) ==> self@.contains_key(q),
            forall|v: CellVector|
                self@.contains_key(v@) ==> exists|c: MapCell|
                    c@ == self@[v@] && #[trigger] call_ensures(
                        p,
                        (v, &c),
                        pts(out@).contains(v@),
                    ),
    {
        let cells = self.positions();
        let mut flags: Vec<bool> = Vec::new();
        let ghost mut given: Seq<MapCell> = Seq::empty();
        let mut i: usize = 0;
        while i < cells.len()
            invariant
                i <= cells.len(),
                flags@.len() == i,
                given.len() == i,
                pts(cells@) == self@.dom(),
                forall|pos: CellVector, c: &MapCell| #[trigger] call_requires(p, (pos, c)),
                forall|k: int|
                    0 <= k < i ==> (#[trigger] given[k])@ == self@[cells@[k]@] && call_ensures(
                        p,
                        (cells@[k], &given[k]),
                        flags@[k],
                    ),
            decreases cells.len() - i,
        {
            assert(pts(cells@).contains(cells@[i as int]@));
            match self.get(cells[i]) {
                Some(c) => {
                    let flag = p(cells[i], c);
                    flags.push(flag);
                    proof {
                        given = given.push(*c);
                    }
                },
                None => {
                    proof {
                        assert(false);
                    }
                    flags.push(false);
                    proof {
                        given = given.push(arbitrary());
                    }
                },
            }
            i += 1;
        }
        let out = keep(&cells, &flags);
        proof {
            crate::order::lemma_ascending_distinct(cells@);
            assert forall|q: Pt| pts(out@).contains(q) implies self@.contains_key(q) by {
                let k = choose|k: int| 0 <= k < cells@.len() && #[trigger] cells@[k]@ == q && flags@[k];
                assert(pts(cells@).contains(cells@[k]@));
            }
            assert forall|v: CellVector| self@.contains_key(v@) implies exists|c: MapCell|
                c@ == self@[v@] && #[trigger] call_ensures(p, (v, &c), pts(out@).contains(v@)) by {
                assert(pts(cells@).contains(v@));
                let k = choose|k: int| 0 <= k < cells@.len() && #[trigger] cells@[k]@ == v@;
                assert(cells@[k] == v);
                let c = given[k];
                if pts(out@).contains(v@) {
                    let j = choose|j: int| 0 <= j < cells@.len() && #[trigger] cells@[j]@ == v@ && flags@[j];
                    if j != k {
                        if j < k {
                            assert(crate::geom::pt_lt(cells@[j]@, cells@[k]@));
                        } else {
                            assert(crate::geom::pt_lt(cells@[k]@, cells@[j]@));
                        }
                    }
                }
                assert(flags@[k] == pts(out@).contains(v@));
                assert(c@ == self@[v@] && call_ensures(p, (v, &c), pts(out@).contains(v@)));
            }
        }
        out
    }
}

} // verus!
