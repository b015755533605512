//! Stamping room templates onto a grid.
//!
//! A room may go where it clobbers no protected floor, digs nothing that
//! cannot be dug, and leaves no two wall shells or doors side by side.

use vstd::prelude::*;
use crate::cell::{CellView, MapCell};
use crate::geom::{in_range, pt_add, wall_step, wall_step_at, CellVector, Dir6, Pt};
use crate::grid::Grid;
use crate::order::{ascending, pts};

verus! {

/// Whether a wall shell that `room` does not itself cover at `p + step`
/// already stands in `world` on one of the four wall-axis steps from the
/// room cell `p`.
pub open spec fn touches_foreign_border(
    world: Map<Pt, CellView>,
    room: Map<Pt, CellView>,
    offset: Pt,
    p: Pt,
) -> bool {
    exists|i: int|
        0 <= i < 4 && {
            let q = pt_add(p, #[trigger] wall_step(i));
            &&& !room.contains_key(q)
            &&& world.contains_key(pt_add(offset, q))
            &&& world[pt_add(offset, q)].border()
        }
}

/// Whether a hex neighbour of the room cell `p` is a diggable shell cell of
/// `room` that lands on walkable ground of `world`: a second door-to-be.
pub open spec fn beside_other_door(
    world: Map<Pt, CellView>,
    room: Map<Pt, CellView>,
    offset: Pt,
    p: Pt,
) -> bool {
    exists|i: int|
        0 <= i < 6 && {
            let q = pt_add(p, #[trigger] Dir6::nth(i).delta());
            &&& room.contains_key(q)
            &&& room[q].border()
            &&& room[q].can_dig
            &&& world.contains_key(pt_add(offset, q))
            &&& world[pt_add(offset, q)].walkable()
        }
}

/// Whether the room cell at `p` may land on `world` with the room moved by
/// `offset`.
pub open spec fn cell_fits(
    world: Map<Pt, CellView>,
    room: Map<Pt, CellView>,
    offset: Pt,
    p: Pt,
) -> bool {
    let c = room[p];
    let pos = pt_add(offset, p);
    if !in_range(pos) {
        false
    } else if !world.contains_key(pos) {
        !(c.walkable() || c.bumper())
    } else {
        let e = world[pos];
        &&& !e.interior()
        &&& !(c.interior() && !e.can_dig)
        &&& c.border() ==> {
            &&& if e.border() {
                e.terrain == c.terrain
            } else {
                !touches_foreign_border(world, room, offset, p)
            }
            &&& e.walkable() && c.can_dig ==> !beside_other_door(world, room, offset, p)
        }
    }
}

/// Whether `room`, moved by `offset`, may be stamped onto `world`: every
/// one of its cells fits.
pub open spec fn valid_placement(
    world: Map<Pt, CellView>,
    room: Map<Pt, CellView>,
    offset: Pt,
) -> bool {
    forall|p: Pt| room.contains_key(p) ==> cell_fits(world, room, offset, p)
}

/// Whether every cell of `room` that writes anything has an address once
/// moved by `offset`.
pub open spec fn addressable(room: Map<Pt, CellView>, offset: Pt) -> bool {
    forall|p: Pt| room.contains_key(p) && !room[p].bumper() ==> in_range(pt_add(offset, p))
}

/// Whether `room`, moved by `offset`, writes the cell at `q`.
pub open spec fn writes(room: Map<Pt, CellView>, offset: Pt, q: Pt) -> bool {
    let p = (q.0 - offset.0, q.1 - offset.1);
    room.contains_key(p) && !room[p].bumper()
}

/// What the room cell `c` becomes when stamped over `under`, the cell of
/// the world at that place if there is one.  A diggable shell cell over
/// walkable ground becomes a door, and a cell over one that cannot be dug
/// cannot be dug either.
pub open spec fn stamped_cell(c: CellView, under: Option<CellView>) -> CellView {
    match under {
        Some(e) => {
            let c1 = if e.walkable() && c.border() && c.can_dig { c.as_door() } else { c };
            CellView { can_dig: c1.can_dig && e.can_dig, ..c1 }
        },
        None => c,
    }
}

/// The world after `room`, moved by `offset`, is stamped onto it.
pub open spec fn stamped(
    world: Map<Pt, CellView>,
    room: Map<Pt, CellView>,
    offset: Pt,
) -> Map<Pt, CellView> {
    Map::new(
        |q: Pt| world.contains_key(q) || writes(room, offset, q),
        |q: Pt|
            if writes(room, offset, q) {
                stamped_cell(
                    room[(q.0 - offset.0, q.1 - offset.1)],
                    if world.contains_key(q) { Some(world[q]) } else { None },
                )
            } else {
                world[q]
            },
    )
}

/// The world after the first `n` cells of `cells` are stamped.
pub open spec fn stamped_upto(
    world: Map<Pt, CellView>,
    room: Map<Pt, CellView>,
    offset: Pt,
    cells: Seq<CellVector>,
    n: int,
) -> Map<Pt, CellView> {
    Map::new(
        |q: Pt| world.contains_key(q) || (writes(room, offset, q) && lands_on(offset, cells, n, q)),
        |q: Pt|
            if writes(room, offset, q) && lands_on(offset, cells, n, q) {
                stamped_cell(
                    room[(q.0 - offset.0, q.1 - offset.1)],
                    if world.contains_key(q) { Some(world[q]) } else { None },
                )
            } else {
                world[q]
            },
    )
}

/// Once a room with protected floor has been stamped, the same room does
/// not fit there again: its floor would land on protected floor.
pub proof fn lemma_stamped_room_blocks_itself(
    world: Map<Pt, CellView>,
    room: Map<Pt, CellView>,
    offset: Pt,
    p: Pt,
)
    requires
        room.contains_key(p),
        room[p].interior(),
        !room[p].bumper(),
        in_range(pt_add(offset, p)),
    ensures
        !valid_placement(stamped(world, room, offset), room, offset),
{
    let after = stamped(world, room, offset);
    let q = pt_add(offset, p);
    assert((q.0 - offset.0, q.1 - offset.1) == p);
    assert(writes(room, offset, q));
    assert(after.contains_key(q));
    assert(after[q].interior());
    assert(!cell_fits(after, room, offset, p));
}

/// A room that fits clobbers no protected floor: every cell of a room's
/// floor that the world holds is the same after the stamping.
pub proof fn lemma_valid_keeps_interior(
    world: Map<Pt, CellView>,
    room: Map<Pt, CellView>,
    offset: Pt,
    q: Pt,
)
    requires
        valid_placement(world, room, offset),
        world.contains_key(q),
        world[q].interior(),
    ensures
        stamped(world, room, offset)[q] == world[q],
{
    let p = (q.0 - offset.0, q.1 - offset.1);
    if room.contains_key(p) {
        assert(pt_add(offset, p) == q);
        assert(cell_fits(world, room, offset, p));
    }
}

/// Stamping never takes a defined cell away, and leaves alone what the
/// room does not cover.  What cannot be dug cannot be dug afterwards.
pub proof fn lemma_stamped_keeps(
    world: Map<Pt, CellView>,
    room: Map<Pt, CellView>,
    offset: Pt,
    q: Pt,
)
    requires
        world.contains_key(q),
    ensures
        stamped(world, room, offset).contains_key(q),
        !writes(room, offset, q) ==> stamped(world, room, offset)[q] == world[q],
        !world[q].can_dig ==> !stamped(world, room, offset)[q].can_dig,
{
}

impl Grid {
    fn touches_border(&self, offset: CellVector, room: &Grid, p: CellVector, pos: CellVector) -> (b:
        bool)
        requires
            pos@ == pt_add(offset@, p@),
        ensures
            b == touches_foreign_border(self@, room@, offset@, p@),
    {
        let mut i: usize = 0;
        while i < 4
            invariant
                i <= 4,
                pos@ == pt_add(offset@, p@),
                forall|k: int|
                    0 <= k < i ==> !({
                        let q = pt_add(p@, #[trigger] wall_step(k));
                        &&& !room@.contains_key(q)
                        &&& self@.contains_key(pt_add(offset@, q))
                        &&& self@[pt_add(offset@, q)].border()
                    }),
            decreases 4 - i,
        {
            let step = wall_step_at(i);
            assert(step@ == wall_step(i as int));
            let in_room = room.get_near(p, step.x, step.y).is_some();
            let ghost q = pt_add(p@, wall_step(i as int));
            assert(pt_add(pos@, step@) == pt_add(offset@, q));
            if !in_room {
                match self.get_near(pos, step.x, step.y) {
                    Some(c) => {
                        if c.is_border() {
                            return true;
                        }
                    },
                    None => {},
                }
            }
            i += 1;
        }
        false
    }

    fn beside_door(&self, offset: CellVector, room: &Grid, p: CellVector, pos: CellVector) -> (b:
        bool)
        requires
            pos@ == pt_add(offset@, p@),
        ensures
            b == beside_other_door(self@, room@, offset@, p@),
    {
        let mut i: usize = 0;
        while i < 6
            invariant
                i <= 6,
                pos@ == pt_add(offset@, p@),
                forall|k: int|
                    0 <= k < i ==> !({
                        let q = pt_add(p@, #[trigger] Dir6::nth(k).delta());
                        &&& room@.contains_key(q)
                        &&& room@[q].border()
                        &&& room@[q].can_dig
                        &&& self@.contains_key(pt_add(offset@, q))
                        &&& self@[pt_add(offset@, q)].walkable()
                    }),
            decreases 6 - i,
        {
            let step = Dir6::from_index(i).to_v2();
            assert(step@ == Dir6::nth(i as int).delta());
            let ghost q = pt_add(p@, Dir6::nth(i as int).delta());
            assert(pt_add(pos@, step@) == pt_add(offset@, q));
            match room.get_near(p, step.x, step.y) {
                Some(c) => {
                    if c.is_border() && c.can_dig {
                        match self.get_near(pos, step.x, step.y) {
                            Some(e) => {
                                if e.is_walkable() {
                                    return true;
                                }
                            },
                            None => {},
                        }
                    }
                },
                None => {},
            }
            i += 1;
        }
        false
    }

    fn fits_at(&self, offset: CellVector, room: &Grid, p: CellVector, c: &MapCell) -> (b: bool)
        requires
            room@.contains_key(p@),
            c@ == room@[p@],
        ensures
            b == cell_fits(self@, room@, offset@, p@),
    {
        let pos = match offset.plus(p) {
            Some(pos) => pos,
            None => {
                return false;
            },
        };
        let existing = match self.get(pos) {
            Some(e) => e,
            None => {
                return !(c.is_walkable() || c.is_bumper());
            },
        };
        if existing.is_interior() {
            return false;
        }
        if c.is_interior() && !existing.can_dig {
            return false;
        }
        if c.is_border() {
            if existing.is_border() {
                if existing.terrain != c.terrain {
                    return false;
                }
            } else if self.touches_border(offset, room, p, pos) {
                return false;
            }
            if existing.is_walkable() && c.can_dig {
                if self.beside_door(offset, room, p, pos) {
                    return false;
                }
            }
        }
        true
    }

    /// Whether `room` can be placed on this grid with its origin at
    /// `offset`.
    pub fn is_valid_placement(&self, offset: CellVector, room: &Grid) -> (b: bool)
        ensures
            b == valid_placement(self@, room@, offset@),
    {
        let cells = room.positions();
        let mut i: usize = 0;
        while i < cells.len()
            invariant
                i <= cells.len(),
                pts(cells@) == room@.dom(),
                forall|k: int|
                    0 <= k < i ==> cell_fits(self@, room@, offset@, #[trigger] cells@[k]@),
            decreases cells.len() - i,
        {
            let p = cells[i];
            assert(pts(cells@).contains(p@));
            match room.get(p) {
                Some(c) => {
                    if !self.fits_at(offset, room, p, c) {
                        return false;
                    }
                },
                None => {},
            }
            i += 1;
        }
        proof {
            assert forall|p: Pt| room@.contains_key(p) implies cell_fits(
                self@,
                room@,
                offset@,
                p,
            ) by {
                assert(pts(cells@).contains(p));
                let k = choose|k: int| 0 <= k < cells@.len() && #[trigger] cells@[k]@ == p;
                assert(cell_fits(self@, room@, offset@, cells@[k]@));
            }
        }
        true
    }

    /// The addresses of this grid at which `room` can be placed, in the
    /// fixed order.
    pub fn room_positions(&self, room: &Grid) -> (out: Vec<CellVector>)
        ensures
            ascending(out@),
            forall|p: Pt|
                pts(out@).contains(p) <==> self@.contains_key(p) && valid_placement(
                    self@,
                    room@,
                    p,
                ),
    {
        let cells = self.positions();
        let mut out: Vec<CellVector> = Vec::new();
        let mut i: usize = 0;
        while i < cells.len()
            invariant
                i <= cells.len(),
                ascending(cells@),
                pts(cells@) == self@.dom(),
                ascending(out@),
                forall|k: int| 0 <= k < out@.len() ==> exists|j: int| 0 <= j < i && cells@[j] == #[trigger] out@[k],
                forall|j: int|
                    0 <= j < i ==> (valid_placement(self@, room@, #[trigger] cells@[j]@)
                        <==> pts(out@).contains(cells@[j]@)),
            decreases cells.len() - i,
        {
            let p = cells[i];
            let ghost before = out@;
            if self.is_valid_placement(p, room) {
                out.push(p);
                proof {
                    assert forall|a: int, b: int| 0 <= a < b < out@.len() implies crate::geom::pt_lt(
                        #[trigger] out@[a]@,
                        #[trigger] out@[b]@,
                    ) by {
                        if b == out@.len() - 1 {
                            let j = choose|j: int| 0 <= j < i && cells@[j] == before[a];
                            assert(out@[a] == before[a]);
                        } else {
                            assert(out@[a] == before[a] && out@[b] == before[b]);
                        }
                    }
                    assert(out@[out@.len() - 1]@ == p@);
                    assert forall|j: int| 0 <= j < i + 1 implies (valid_placement(
                        self@,
                        room@,
                        #[trigger] cells@[j]@,
                    ) <==> pts(out@).contains(cells@[j]@)) by {
                        if j < i {
                            if pts(before).contains(cells@[j]@) {
                                let k = choose|k: int| 0 <= k < before.len() && #[trigger] before[k]@ == cells@[j]@;
                                assert(out@[k] == before[k]);
                            }
                            if pts(out@).contains(cells@[j]@) {
                                let k = choose|k: int| 0 <= k < out@.len() && #[trigger] out@[k]@ == cells@[j]@;
                                if k == out@.len() - 1 {
                                    assert(crate::geom::pt_lt(cells@[j]@, cells@[i as int]@));
                                } else {
                                    assert(out@[k] == before[k]);
                                }
                            }
                        }
                    }
                    assert forall|k: int| 0 <= k < out@.len() implies exists|j: int|
                        0 <= j < i + 1 && cells@[j] == #[trigger] out@[k] by {
                        if k < before.len() {
                            assert(out@[k] == before[k]);
                            let j = choose|j: int| 0 <= j < i && cells@[j] == before[k];
                            assert(cells@[j] == out@[k]);
                        } else {
                            assert(cells@[i as int] == out@[k]);
                        }
                    }
                }
            } else {
                proof {
                    if pts(out@).contains(p@) {
                        let k = choose|k: int| 0 <= k < out@.len() && #[trigger] out@[k]@ == p@;
                        let j = choose|j: int| 0 <= j < i && cells@[j] == out@[k];
                        assert(crate::geom::pt_lt(cells@[j]@, cells@[i as int]@));
                    }
                }
            }
            i += 1;
        }
        proof {
            assert forall|p: Pt|
                pts(out@).contains(p) <==> self@.contains_key(p) && valid_placement(
                    self@,
                    room@,
                    p,
                ) by {
                if pts(out@).contains(p) {
                    let k = choose|k: int| 0 <= k < out@.len() && #[trigger] out@[k]@ == p;
                    let j = choose|j: int| 0 <= j < i && cells@[j] == out@[k];
                    assert(pts(cells@).contains(cells@[j]@));
                }
                if self@.contains_key(p) && valid_placement(self@, room@, p) {
                    assert(pts(cells@).contains(p));
                    let j = choose|j: int| 0 <= j < cells@.len() && #[trigger] cells@[j]@ == p;
                }
            }
        }
        out
    }

    /// Stamps `room` onto this grid with its origin at `offset`.  Cells that
    /// only reserve space write nothing.
    pub fn place_room_at(&mut self, offset: CellVector, room: &Grid)
        requires
            addressable(room@, offset@),
        ensures
            final(self)@ == stamped(old(self)@, room@, offset@),
    {
        let cells = room.positions();
        let mut i: usize = 0;
        assert(self@ =~= stamped_upto(old(self)@, room@, offset@, cells@, 0));
        while i < cells.len()
            invariant
                i <= cells.len(),
                ascending(cells@),
                pts(cells@) == room@.dom(),
                addressable(room@, offset@),
                self@ == stamped_upto(old(self)@, room@, offset@, cells@, i as int),
            decreases cells.len() - i,
        {
            let p = cells[i];
            assert(pts(cells@).contains(p@));
            let ghost before = self@;
            match room.get(p) {
                Some(c) => {
                    if !c.is_bumper() {
                        let pos = match offset.plus(p) {
                            Some(pos) => pos,
                            None => {
                                proof {
                                    assert(false);
                                }
                                p
                            },
                        };
                        let mut c = c.duplicate();
                        proof {
                            lemma_not_yet_stamped(old(self)@, room@, offset@, cells@, i as int);
                        }
                        match self.get(pos) {
                            Some(existing) => {
                                let walk = existing.is_walkable();
                                let dig = existing.can_dig;
                                if walk && c.is_border() && c.can_dig {
                                    c = c.to_door();
                                }
                                if !dig {
                                    c.can_dig = false;
                                }
                            },
                            None => {},
                        }
                        self.insert(pos, c);
                        proof {
                            lemma_stamp_next(old(self)@, room@, offset@, cells@, i as int);
                        }
                    } else {
                        proof {
                            lemma_skip_bumper(old(self)@, room@, offset@, cells@, i as int);
                        }
                    }
                },
                None => {},
            }
            i += 1;
        }
        proof {
            let target = stamped(old(self)@, room@, offset@);
            assert(self@ =~= target) by {
                assert forall|q: Pt| writes(room@, offset@, q) implies exists|k: int|
                    0 <= k < cells@.len() && pt_add(offset@, #[trigger] cells@[k]@) == q by {
                    let p = (q.0 - offset@.0, q.1 - offset@.1);
                    assert(pts(cells@).contains(p));
                    let k = choose|k: int| 0 <= k < cells@.len() && #[trigger] cells@[k]@ == p;
                    assert(pt_add(offset@, cells@[k]@) == q);
                }
            }
        }
    }
}

/// Whether one of the first `n` cells of `cells` lands on `q`.
pub open spec fn lands_on(offset: Pt, cells: Seq<CellVector>, n: int, q: Pt) -> bool {
    exists|k: int| 0 <= k < n && pt_add(offset, #[trigger] cells[k]@) == q
}

/// Where the cell whose turn it is lands, nothing has been stamped yet.
proof fn lemma_not_yet_stamped(
    world: Map<Pt, CellView>,
    room: Map<Pt, CellView>,
    offset: Pt,
    cells: Seq<CellVector>,
    i: int,
)
    requires
        0 <= i < cells.len(),
        ascending(cells),
    ensures
        !lands_on(offset, cells, i, pt_add(offset, cells[i]@)),
        stamped_upto(world, room, offset, cells, i).contains_key(pt_add(offset, cells[i]@))
            == world.contains_key(pt_add(offset, cells[i]@)),
        world.contains_key(pt_add(offset, cells[i]@)) ==> stamped_upto(
            world,
            room,
            offset,
            cells,
            i,
        )[pt_add(offset, cells[i]@)] == world[pt_add(offset, cells[i]@)],
{
    let pos = pt_add(offset, cells[i]@);
    assert forall|k: int| 0 <= k < i implies pt_add(offset, #[trigger] cells[k]@) != pos by {
        assert(crate::geom::pt_lt(cells[k]@, cells[i]@));
    }
}

/// Stamping the cell whose turn it is gives the world with one more cell
/// stamped.
proof fn lemma_stamp_next(
    world: Map<Pt, CellView>,
    room: Map<Pt, CellView>,
    offset: Pt,
    cells: Seq<CellVector>,
    i: int,
)
    requires
        0 <= i < cells.len(),
        ascending(cells),
        room.contains_key(cells[i]@),
        !room[cells[i]@].bumper(),
    ensures
        stamped_upto(world, room, offset, cells, i + 1) == stamped_upto(
            world,
            room,
            offset,
            cells,
            i,
        ).insert(
            pt_add(offset, cells[i]@),
            stamped_cell(
                room[cells[i]@],
                if world.contains_key(pt_add(offset, cells[i]@)) {
                    Some(world[pt_add(offset, cells[i]@)])
                } else {
                    None
                },
            ),
        ),
{
    let pos = pt_add(offset, cells[i]@);
    let before = stamped_upto(world, room, offset, cells, i);
    let after = stamped_upto(world, room, offset, cells, i + 1);
    let under = if world.contains_key(pos) { Some(world[pos]) } else { None };
    let grown = before.insert(pos, stamped_cell(room[cells[i]@], under));
    assert((pos.0 - offset.0, pos.1 - offset.1) == cells[i]@);
    assert(writes(room, offset, pos));
    assert forall|q: Pt|
        (writes(room, offset, q) && lands_on(offset, cells, i + 1, q)) == ((writes(room, offset, q)
            && lands_on(offset, cells, i, q)) || q == pos) by {
        if lands_on(offset, cells, i + 1, q) {
            let k = choose|k: int| 0 <= k < i + 1 && pt_add(offset, #[trigger] cells[k]@) == q;
            if k < i {
                assert(lands_on(offset, cells, i, q));
            }
        }
        if lands_on(offset, cells, i, q) {
            let k = choose|k: int| 0 <= k < i && pt_add(offset, #[trigger] cells[k]@) == q;
            assert(0 <= k < i + 1);
        }
        if q == pos {
            assert(pt_add(offset, cells[i]@) == q);
        }
    }
    assert(after =~= grown);
}

/// A cell that only reserves space changes nothing when its turn comes.
proof fn lemma_skip_bumper(
    world: Map<Pt, CellView>,
    room: Map<Pt, CellView>,
    offset: Pt,
    cells: Seq<CellVector>,
    i: int,
)
    requires
        0 <= i < cells.len(),
        room.contains_key(cells[i]@),
        room[cells[i]@].bumper(),
    ensures
        stamped_upto(world, room, offset, cells, i) == stamped_upto(
            world,
            room,
            offset,
            cells,
            i + 1,
        ),
{
    let a = stamped_upto(world, room, offset, cells, i);
    let b = stamped_upto(world, room, offset, cells, i + 1);
    assert forall|q: Pt|
        (writes(room, offset, q) && lands_on(offset, cells, i, q)) == (writes(room, offset, q)
            && lands_on(offset, cells, i + 1, q)) by {
        if writes(room, offset, q) && lands_on(offset, cells, i + 1, q) {
            let k = choose|k: int| 0 <= k < i + 1 && pt_add(offset, #[trigger] cells[k]@) == q;
            if k == i {
                assert((q.0 - offset.0, q.1 - offset.1) == cells[i]@);
                assert(false);
            }
            assert(0 <= k < i);
        }
        if writes(room, offset, q) && lands_on(offset, cells, i, q) {
            let k = choose|k: int| 0 <= k < i && pt_add(offset, #[trigger] cells[k]@) == q;
            assert(0 <= k < i + 1);
        }
    }
    assert(a =~= b);
}

} // verus!
