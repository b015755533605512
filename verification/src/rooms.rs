//! Ways to make a grid, and the random placing of rooms.

use vstd::prelude::*;
use rand::XorShiftRng;
use crate::cell::{CellView, MapCell, VaultKind};
use crate::geom::{in_range, CellVector, Pt};
use crate::grid::Grid;
use crate::order::pts;
use crate::placement::{stamped, valid_placement};
use crate::rng::{gen_range_i32, pick_slice};
use crate::terrain::Terrain;

verus! {

/// Why a grid could not be made or changed.
#[derive(Clone, Copy, Debug, PartialEq, Eq, Structural)]
pub enum MapError {
    /// The room template holds a glyph that stands for nothing, in column
    /// `x` of line `y`, both counted from zero.
    UnknownGlyph { glyph: char, x: i32, y: i32 },
    /// No place is left at which the room fits.
    NoRoomLeft,
}

/// The cell at `p` of a plain room whose floor is `w` wide and `h` high:
/// protected ground within, a wall shell around it that can be dug but at
/// its four corners.
pub open spec fn room_cell(w: int, h: int, p: Pt) -> CellView {
    let x_wall = p.0 == -1 || p.0 == w;
    let y_wall = p.1 == -1 || p.1 == h;
    if x_wall && y_wall {
        CellView {
            terrain: Terrain::Wall,
            spawns: Seq::empty(),
            can_dig: false,
            vault_kind: Some(VaultKind::Border),
        }
    } else if x_wall || y_wall {
        CellView {
            terrain: Terrain::Wall,
            spawns: Seq::empty(),
            can_dig: true,
            vault_kind: Some(VaultKind::Border),
        }
    } else {
        CellView {
            terrain: Terrain::Ground,
            spawns: Seq::empty(),
            can_dig: true,
            vault_kind: Some(VaultKind::Interior),
        }
    }
}

/// The plain room whose floor is `w` wide and `h` high, its floor from
/// `(0, 0)` on.
pub open spec fn plain_room(w: int, h: int) -> Map<Pt, CellView> {
    Map::new(|p: Pt| -1 <= p.0 <= w && -1 <= p.1 <= h, |p: Pt| room_cell(w, h, p))
}

/// The part of a plain room that is built once the rows before `y` and the
/// cells before `x` of row `y` are.
pub open spec fn plain_room_upto(w: int, h: int, y: int, x: int) -> Map<Pt, CellView> {
    Map::new(
        |p: Pt| -1 <= p.0 <= w && -1 <= p.1 <= h && (p.1 < y || (p.1 == y && p.0 < x)),
        |p: Pt| room_cell(w, h, p),
    )
}

impl Grid {
    /// A grid with a cell of no terrain at each of `points`.
    pub fn new_base(points: &Vec<CellVector>) -> (g: Grid)
        ensures
            g@.dom() == pts(points@),
            forall|p: Pt| g@.contains_key(p) ==> g@[p] == CellView::of_terrain(Terrain::Empty),
    {
        let mut ret = Grid::new();
        let mut i: usize = 0;
        assert(ret@.dom() =~= pts(points@.take(0)));
        while i < points.len()
            invariant
                i <= points.len(),
                ret@.dom() == pts(points@.take(i as int)),
                forall|p: Pt|
                    ret@.contains_key(p) ==> ret@[p] == CellView::of_terrain(Terrain::Empty),
            decreases points.len() - i,
        {
            let ghost before = ret@;
            ret.insert(points[i], MapCell::default());
            proof {
                let a = points@.take(i as int);
                let b = points@.take(i + 1);
                assert(ret@.dom() =~= pts(b)) by {
                    assert forall|x: Pt| pts(b).contains(x) implies ret@.dom().contains(x) by {
                        let k = choose|k: int| 0 <= k < b.len() && #[trigger] b[k]@ == x;
                        if k < i {
                            assert(a[k] == b[k]);
                            assert(pts(a).contains(x));
                        }
                    }
                    assert forall|x: Pt| ret@.dom().contains(x) implies pts(b).contains(x) by {
                        if x == points@[i as int]@ {
                            assert(b[i as int]@ == x);
                        } else {
                            assert(pts(a).contains(x));
                            let k = choose|k: int| 0 <= k < a.len() && #[trigger] a[k]@ == x;
                            assert(a[k] == b[k]);
                        }
                    }
                }
            }
            i += 1;
        }
        assert(points@.take(i as int) =~= points@);
        ret
    }

    /// The plain room whose floor is `w` wide and `h` high.
    pub fn plain_room(w: i32, h: i32) -> (g: Grid)
        requires
            -1 <= w < i32::MAX,
            -1 <= h < i32::MAX,
        ensures
            g@ == plain_room(w as int, h as int),
    {
        let mut ret = Grid::new();
        let mut y: i32 = -1;
        assert(ret@ =~= plain_room_upto(w as int, h as int, -1, -1));
        while y <= h
            invariant
                -1 <= y <= h + 1,
                -1 <= w < i32::MAX,
                -1 <= h < i32::MAX,
                ret@ == plain_room_upto(w as int, h as int, y as int, -1),
            decreases h - y + 1,
        {
            let mut x: i32 = -1;
            while x <= w
                invariant
                    -1 <= x <= w + 1,
                    -1 <= y <= h,
                    -1 <= w < i32::MAX,
                    -1 <= h < i32::MAX,
                    ret@ == plain_room_upto(w as int, h as int, y as int, x as int),
                decreases w - x + 1,
            {
                let x_wall = x == -1 || x == w;
                let y_wall = y == -1 || y == h;
                let p = CellVector { x, y };
                let cell = if x_wall || y_wall {
                    if !(x_wall && y_wall) {
                        MapCell::new_terrain(Terrain::Wall).border()
                    } else {
                        MapCell::new_terrain(Terrain::Wall).undiggable().border()
                    }
                } else {
                    MapCell::new_terrain(Terrain::Ground).interior()
                };
                assert(cell@ == room_cell(w as int, h as int, p@));
                ret.insert(p, cell);
                x += 1;
                assert(ret@ =~= plain_room_upto(w as int, h as int, y as int, x as int));
            }
            y += 1;
            assert(ret@ =~= plain_room_upto(w as int, h as int, y as int, -1));
        }
        assert(ret@ =~= plain_room(w as int, h as int));
        ret
    }

    /// A plain room of a random size: its floor is from two to seven cells
    /// wide and as many high.
    pub fn new_plain_room(rng: &mut XorShiftRng) -> (g: Grid)
        ensures
            exists|w: int, h: int| 2 <= w < 8 && 2 <= h < 8 && g@ == #[trigger] plain_room(w, h),
    {
        let w = gen_range_i32(rng, 2, 8);
        let h = gen_range_i32(rng, 2, 8);
        let g = Grid::plain_room(w, h);
        assert(g@ == plain_room(w as int, h as int));
        g
    }

    /// Stamps `room` at one of the places where it fits, drawn at random.
    /// Where it fits nowhere the grid is left as it was.
    pub fn place_room(&mut self, rng: &mut XorShiftRng, room: &Grid) -> (r: Result<(), MapError>)
        ensures
            match r {
                Ok(_) => exists|site: Pt|
                    old(self)@.contains_key(site) && valid_placement(old(self)@, room@, site)
                        && final(self)@ == #[trigger] stamped(old(self)@, room@, site),
                Err(e) => e == MapError::NoRoomLeft && final(self)@ == old(self)@ && forall|
                    site: Pt,
                |
                    old(self)@.contains_key(site) ==> !#[trigger] valid_placement(
                        old(self)@,
                        room@,
                        site,
                    ),
            },
    {
        let sites = self.room_positions(room);
        match pick_slice(rng, &sites) {
            Some(site) => {
                proof {
                    let i = choose|i: int| 0 <= i < sites@.len() && sites@[i] == site;
                    assert(sites@[i]@ == site@);
                    assert(pts(sites@).contains(site@));
                    assert(valid_placement(self@, room@, site@));
                    assert(crate::placement::addressable(room@, site@)) by {
                        assert forall|p: Pt| room@.contains_key(p) implies in_range(
                            crate::geom::pt_add(site@, p),
                        ) by {
                            assert(crate::placement::cell_fits(self@, room@, site@, p));
                        }
                    }
                }
                self.place_room_at(site, room);
                Ok(())
            },
            None => {
                proof {
                    assert forall|site: Pt| old(self)@.contains_key(site) implies !#[trigger] valid_placement(
                        old(self)@,
                        room@,
                        site,
                    ) by {
                        if valid_placement(old(self)@, room@, site) {
                            assert(pts(sites@).contains(site));
                        }
                    }
                }
                Err(MapError::NoRoomLeft)
            },
        }
    }
}

} // verus!
