//! Digging one sector.
//!
//! Where to dig is decided elsewhere: a map generator is handed a
//! [`Dungeon`] and tells it what to dig, in the sector's own addresses.
//! The [`SectorDigger`] keeps what was dug until the sector is done.

use vstd::prelude::*;
use rand::XorShiftRng;
use crate::geom::{CellVector, Dir6, Pt};
use crate::location::{Location, LocationSet};
use crate::rng::gen_range_i32;
use crate::sector::Sector;
use crate::terrain::Terrain;

verus! {

/// What a cell of a room is before the room is dug.
#[derive(Clone, Copy, Debug, PartialEq, Eq, Structural)]
pub enum VaultCell {
    UndiggableWall,
    DiggableWall,
    Interior,
}

/// A plain room to be placed by a map generator.
#[derive(Clone, Copy, Debug, PartialEq, Eq, Structural)]
pub struct Room {
    pub width: i32,
    pub height: i32,
}

/// The cell at `p` of the shape of a room.  The wall runs along the row and
/// the column before the floor, the corner where they meet cannot be dug.
pub open spec fn shape_cell(p: Pt) -> VaultCell {
    if p.0 == -1 && p.1 == -1 {
        VaultCell::UndiggableWall
    } else if p.0 == -1 || p.1 == -1 {
        VaultCell::DiggableWall
    } else {
        VaultCell::Interior
    }
}

/// The cells of a room whose floor is `w` wide and `h` high, row by row
/// from `(-1, -1)` on, each with what it is.
pub open spec fn shape_of(w: int, h: int) -> Seq<(Pt, VaultCell)> {
    Seq::new(
        ((w + 1) * (h + 1)) as nat,
        |i: int|
            {
                let p = (i % (w + 1) - 1, i / (w + 1) - 1);
                (p, shape_cell(p))
            },
    )
}

impl Room {
    /// The cells of the room, row by row from `(-1, -1)` on, each with what
    /// it is.
    pub fn get_shape(&self) -> (out: Vec<(CellVector, VaultCell)>)
        requires
            0 <= self.width < i32::MAX,
            0 <= self.height < i32::MAX,
            (self.width + 1) * (self.height + 1) <= usize::MAX,
        ensures
            out@.len() == shape_of(self.width as int, self.height as int).len(),
            forall|i: int|
                0 <= i < out@.len() ==> ((#[trigger] out@[i]).0@, out@[i].1) == shape_of(
                    self.width as int,
                    self.height as int,
                )[i],
    {
        let ghost w = self.width + 1;
        let ghost all = shape_of(self.width as int, self.height as int);
        let mut out: Vec<(CellVector, VaultCell)> = Vec::new();
        let mut x: i32 = -1;
        let mut y: i32 = -1;
        proof {
            assert(0 <= w * (self.height + 1)) by (nonlinear_arith)
                requires
                    w >= 0,
                    self.height + 1 >= 0,
            ;
        }
        while y < self.height
            invariant
                -1 <= x < self.width,
                -1 <= y <= self.height,
                y == self.height ==> x == -1,
                0 <= self.width < i32::MAX,
                0 <= self.height < i32::MAX,
                w == self.width + 1,
                all == shape_of(self.width as int, self.height as int),
                all.len() == w * (self.height + 1),
                out@.len() == (y + 1) * w + (x + 1),
                forall|i: int| 0 <= i < out@.len() ==> ((#[trigger] out@[i]).0@, out@[i].1) == all[i],
            decreases (self.height - y) * w - (x + 1),
        {
            let x_wall = x == -1 || x == self.width;
            let y_wall = y == -1 || y == self.height;
            let p = CellVector { x, y };
            let cell = if x_wall && y_wall {
                VaultCell::UndiggableWall
            } else if x_wall || y_wall {
                VaultCell::DiggableWall
            } else {
                VaultCell::Interior
            };
            let ghost before = out@;
            let ghost i = before.len() as int;
            proof {
                assert(0 <= (y + 1) * w && (y + 1) * w + w <= (self.height + 1) * w) by (nonlinear_arith)
                    requires
                        0 <= y + 1 <= self.height,
                        w >= 1,
                ;
                assert((self.height + 1) * w == w * (self.height + 1)) by (nonlinear_arith);
                vstd::arithmetic::div_mod::lemma_fundamental_div_mod_converse(i, w, y + 1, x + 1);
                assert(all[i] == (p@, cell));
            }
            out.push((p, cell));
            proof {
                assert forall|k: int| 0 <= k < out@.len() implies ((#[trigger] out@[k]).0@, out@[k].1)
                    == all[k] by {
                    if k < i {
                        assert(out@[k] == before[k]);
                    }
                }
                assert((self.height - y) * w - (x + 1) > 0) by (nonlinear_arith)
                    requires
                        self.height - y >= 1,
                        w >= 1,
                        x + 1 < w,
                ;
            }
            x += 1;
            if x == self.width {
                x = -1;
                proof {
                    assert((y + 1) * w + w == (y + 1 + 1) * w) by (nonlinear_arith);
                    assert((self.height - (y + 1)) * w == (self.height - y) * w - w) by (nonlinear_arith);
                }
                y += 1;
            }
        }
        out
    }

    /// A room of a random size: from three to nine cells wide and as many
    /// high.
    pub fn rand(rng: &mut XorShiftRng) -> (room: Room)
        ensures
            3 <= room.width < 10,
            3 <= room.height < 10,
    {
        let width = gen_range_i32(rng, 3, 10);
        let height = gen_range_i32(rng, 3, 10);
        Room { width, height }
    }
}

/// What a map generator can do to the level it digs.  Cells are addressed
/// as the sector addresses them.
///
/// What each step does to a level is told over the level's view, so that a
/// generator can say what it has dug whatever kind of level it digs.
pub trait Dungeon: View {
    /// The level `v` with the cells of `area` dug as a chamber.
    spec fn chamber_dug(v: Self::V, area: Seq<CellVector>) -> Self::V;

    /// The level `v` with the cells of `path` dug as a corridor.
    spec fn corridor_dug(v: Self::V, path: Seq<CellVector>) -> Self::V;

    /// The level `v` with `vault` built with its floor from `pos` on.
    spec fn vault_placed(v: Self::V, vault: Room, pos: Pt) -> Self::V;

    /// The level `v` with a door at `pos`.
    spec fn door_added(v: Self::V, pos: Pt) -> Self::V;

    /// The level `v` with the stairs up at `pos`.
    spec fn up_stairs_added(v: Self::V, pos: Pt) -> Self::V;

    /// The level `v` with the stairs down at `pos`.
    spec fn down_stairs_added(v: Self::V, pos: Pt) -> Self::V;

    /// A room for the generator to place.
    fn sample_vault(&mut self, rng: &mut XorShiftRng) -> Room;

    /// Digs the cells of `area` as a chamber: ground on which things may be
    /// put.
    fn dig_chamber(&mut self, area: &Vec<CellVector>)
        ensures
            final(self)@ == Self::chamber_dug(old(self)@, area@),
    ;

    /// Digs the cells of `path` as a corridor: ground that is kept free.
    fn dig_corridor(&mut self, path: &Vec<CellVector>)
        ensures
            final(self)@ == Self::corridor_dug(old(self)@, path@),
    ;

    /// Builds `vault` with its floor from `pos` on.
    fn place_vault(&mut self, vault: &Room, pos: CellVector)
        ensures
            final(self)@ == Self::vault_placed(old(self)@, *vault, pos@),
    ;

    fn add_door(&mut self, pos: CellVector)
        ensures
            final(self)@ == Self::door_added(old(self)@, pos@),
    ;

    /// Puts the stairs by which the level is entered from above.
    fn add_up_stairs(&mut self, pos: CellVector)
        ensures
            final(self)@ == Self::up_stairs_added(old(self)@, pos@),
    ;

    /// Puts the stairs that lead further down.
    fn add_down_stairs(&mut self, pos: CellVector)
        ensures
            final(self)@ == Self::down_stairs_added(old(self)@, pos@),
    ;
}

/// What decides where to dig.
pub trait MapGen {
    /// Digs a level into `dungeon`.  The cells of `domain` are those that
    /// may be dug.
    fn dig<D: Dungeon>(&self, rng: &mut XorShiftRng, dungeon: &mut D, domain: &Vec<CellVector>);
}

/// The terrain that a list of writes leaves, the later write winning.
pub open spec fn terrain_of(log: Seq<(Location, Terrain)>) -> Map<Location, Terrain>
    decreases log.len(),
{
    if log.len() == 0 {
        Map::empty()
    } else {
        terrain_of(log.drop_last()).insert(log.last().0, log.last().1)
    }
}

/// The places where a list of writes leaves open floor.
pub open spec fn open_places(log: Seq<(Location, Terrain)>) -> Set<Location> {
    Set::new(
        |loc: Location| terrain_of(log).contains_key(loc) && terrain_of(log)[loc].spec_is_open(),
    )
}

/// Whether `b` is one hex step from `a`, on the same depth.
pub open spec fn near(a: Location, b: Location) -> bool {
    exists|k: int|
        0 <= k < 6 && b == a.moved((#[trigger] Dir6::nth(k)).delta().0, Dir6::nth(k).delta().1)
}

/// The places that are reached from `start` in at most `n` steps, each
/// step onto a place of `open`.
pub open spec fn reach(open: Set<Location>, start: Location, n: nat) -> Set<Location>
    decreases n,
{
    if n == 0 {
        set![start]
    } else {
        let prev = reach(open, start, (n - 1) as nat);
        Set::new(
            |q: Location|
                prev.contains(q) || (open.contains(q) && exists|p: Location|
                    #[trigger] prev.contains(p) && near(p, q)),
        )
    }
}

/// Once a step reaches nothing new, no further step does.
pub proof fn lemma_reach_stable(open: Set<Location>, start: Location, n: nat, m: nat)
    requires
        reach(open, start, n + 1) == reach(open, start, n),
        n <= m,
    ensures
        reach(open, start, m) == reach(open, start, n),
    decreases m,
{
    if m > n {
        lemma_reach_stable(open, start, n, (m - 1) as nat);
        assert(reach(open, start, m) =~= reach(open, start, n + 1));
    }
}

/// A sector being dug, as contracts see it.
pub struct DiggerView {
    pub sector: Sector,
    /// What was written, in the order of writing.
    pub log: Seq<(Location, Terrain)>,
    pub up_portal: Option<Location>,
    pub down_portal: Option<Location>,
    /// The places on which things may be put.
    pub spawn_region: Set<Location>,
}

impl DiggerView {
    /// The sector with `t` written at the cell `p`.
    pub open spec fn wrote(self, p: Pt, t: Terrain) -> DiggerView {
        DiggerView { log: self.log.push((self.sector.place(p), t)), ..self }
    }

    /// The sector with ground dug at the cell `p`, and things allowed or
    /// not allowed there.
    pub open spec fn dug_at(self, p: Pt, spawn: bool) -> DiggerView {
        let loc = self.sector.place(p);
        DiggerView {
            spawn_region: if spawn {
                self.spawn_region.insert(loc)
            } else {
                self.spawn_region.remove(loc)
            },
            ..self.wrote(p, Terrain::Ground)
        }
    }

    /// The sector with ground dug at each cell of `cells`, in turn.
    pub open spec fn dug_all(self, cells: Seq<CellVector>, spawn: bool) -> DiggerView
        decreases cells.len(),
    {
        if cells.len() == 0 {
            self
        } else {
            self.dug_all(cells.drop_last(), spawn).dug_at(cells.last()@, spawn)
        }
    }

    /// The sector with a door at the cell `p`.
    pub open spec fn with_door(self, p: Pt) -> DiggerView {
        DiggerView {
            spawn_region: self.spawn_region.remove(self.sector.place(p)),
            ..self.wrote(p, Terrain::Door)
        }
    }

    /// The sector with the stairs up at the cell `p`.
    pub open spec fn with_up_stairs(self, p: Pt) -> DiggerView {
        let loc = self.sector.place(p);
        DiggerView {
            up_portal: Some(loc),
            spawn_region: self.spawn_region.remove(loc),
            ..self.wrote(p, Terrain::Gate)
        }
    }

    /// The sector with the stairs down at the cell `p`.  The cell in front
    /// of the stairs is cleared, so that nothing is drawn over them.
    pub open spec fn with_down_stairs(self, p: Pt) -> DiggerView {
        let loc = self.sector.place(p);
        let front = loc.moved(1, 1);
        DiggerView {
            down_portal: Some(loc),
            spawn_region: self.spawn_region.remove(loc).remove(front),
            log: self.log.push((loc, Terrain::Gate)).push((front, Terrain::Empty)),
            ..self
        }
    }

    /// The sector with the first `n` cells of `shape` built with the floor
    /// from `p` on: walls of wall, the floor of ground.
    pub open spec fn with_vault(self, shape: Seq<(Pt, VaultCell)>, p: Pt, n: int) -> DiggerView
        decreases n,
    {
        if n <= 0 {
            self
        } else {
            let (at, cell) = shape[n - 1];
            self.with_vault(shape, p, n - 1).wrote(
                (p.0 + at.0, p.1 + at.1),
                if cell == VaultCell::Interior {
                    Terrain::Ground
                } else {
                    Terrain::Wall
                },
            )
        }
    }
}

/// A sector that is being dug.
pub struct SectorDigger {
    sector: Sector,
    log: Vec<(Location, Terrain)>,
    up_portal: Option<Location>,
    down_portal: Option<Location>,
    spawn_region: LocationSet,
}

impl View for SectorDigger {
    type V = DiggerView;

    closed spec fn view(&self) -> DiggerView {
        DiggerView {
            sector: self.sector,
            log: self.log@,
            up_portal: self.up_portal,
            down_portal: self.down_portal,
            spawn_region: self.spawn_region@,
        }
    }
}

impl SectorDigger {
    /// A digger for `sector` that has dug nothing yet.
    pub fn new(sector: Sector) -> (d: SectorDigger)
        ensures
            d@ == (DiggerView {
                sector,
                log: Seq::empty(),
                up_portal: None,
                down_portal: None,
                spawn_region: Set::empty(),
            }),
    {
        SectorDigger {
            sector,
            log: Vec::new(),
            up_portal: None,
            down_portal: None,
            spawn_region: LocationSet::new(),
        }
    }

    /// The cells that may be dug, row by row.
    pub fn domain(&self) -> (out: Vec<CellVector>)
        ensures
            forall|p: Pt|
                (exists|i: int| 0 <= i < out@.len() && #[trigger] out@[i]@ == p) <==> (Sector::within(p)
                    && !crate::sector::next_to_diagonal(self@.sector.place(p))),
            forall|i: int, j: int|
                0 <= i < j < out@.len() ==> (#[trigger] out@[i]).y < (#[trigger] out@[j]).y || (out@[i].y
                    == out@[j].y && out@[i].x < out@[j].x),
    {
        self.sector.domain()
    }

    /// The place of the cell `pos`.
    pub fn loc(&self, pos: CellVector) -> (loc: Location)
        ensures
            loc == self@.sector.place(pos@),
    {
        self.sector.loc(pos)
    }

    /// Writes terrain `terrain` at `loc`.
    pub fn set(&mut self, loc: Location, terrain: Terrain)
        ensures
            final(self)@ == (DiggerView { log: old(self)@.log.push((loc, terrain)), ..old(self)@ }),
    {
        self.log.push((loc, terrain));
    }

    /// The terrain written at `loc`, if any.
    pub fn terrain_at(&self, loc: Location) -> (t: Option<Terrain>)
        ensures
            match t {
                Some(t) => terrain_of(self@.log).contains_key(loc) && terrain_of(self@.log)[loc] == t,
                None => !terrain_of(self@.log).contains_key(loc),
            },
    {
        let mut i: usize = self.log.len();
        assert(self.log@.take(i as int) =~= self.log@);
        while i > 0
            invariant
                i <= self.log@.len(),
                terrain_of(self.log@).contains_key(loc) == terrain_of(
                    self.log@.take(i as int),
                ).contains_key(loc),
                terrain_of(self.log@).contains_key(loc) ==> terrain_of(self.log@)[loc] == terrain_of(
                    self.log@.take(i as int),
                )[loc],
            decreases i,
        {
            proof {
                let head = self.log@.take(i as int);
                assert(head.drop_last() =~= self.log@.take(i - 1));
                assert(head.last() == self.log@[i - 1]);
            }
            i -= 1;
            if self.log[i].0 == loc {
                return Some(self.log[i].1);
            }
        }
        assert(self.log@.take(0).len() == 0);
        None
    }

    /// The stairs by which the level is entered from above, if they were
    /// put.
    pub fn up_portal(&self) -> (r: Option<Location>)
        ensures
            r == self@.up_portal,
    {
        self.up_portal
    }

    /// The stairs that lead further down, if they were put.
    pub fn down_portal(&self) -> (r: Option<Location>)
        ensures
            r == self@.down_portal,
    {
        self.down_portal
    }

    /// The places on which things may be put, in the fixed order.
    pub fn spawn_places(&self) -> (out: Vec<Location>)
        ensures
            crate::location::rising(out@),
            out@.to_set() == self@.spawn_region,
    {
        self.spawn_region.to_vec()
    }

    /// What was written, in the order of writing.
    pub fn written(&self) -> (out: &Vec<(Location, Terrain)>)
        ensures
            out@ == self@.log,
    {
        &self.log
    }

    fn is_open_at(&self, loc: Location) -> (b: bool)
        ensures
            b == open_places(self@.log).contains(loc),
    {
        match self.terrain_at(loc) {
            Some(t) => t.is_open(),
            None => false,
        }
    }

    /// Takes in the open places one step from `edge` that `seen` lacks, and
    /// returns them.
    fn step_out(
        &self,
        seen: &mut LocationSet,
        edge: &Vec<Location>,
        Ghost(start): Ghost<Location>,
        Ghost(n): Ghost<nat>,
    ) -> (next: Vec<Location>)
        requires
            old(seen)@ == reach(open_places(self@.log), start, n),
            forall|i: int| 0 <= i < edge@.len() ==> old(seen)@.contains(#[trigger] edge@[i]),
            forall|p: Location, q: Location|
                #![trigger old(seen)@.contains(p), near(p, q)]
                old(seen)@.contains(p) && !edge@.contains(p) && near(p, q) && open_places(
                    self@.log,
                ).contains(q) ==> old(seen)@.contains(q),
        ensures
            final(seen)@ == reach(open_places(self@.log), start, n + 1),
            forall|i: int| 0 <= i < next@.len() ==> final(seen)@.contains(#[trigger] next@[i]),
            forall|p: Location, q: Location|
                #![trigger final(seen)@.contains(p), near(p, q)]
                final(seen)@.contains(p) && !next@.contains(p) && near(p, q) && open_places(
                    self@.log,
                ).contains(q) ==> final(seen)@.contains(q),
            next@.len() == 0 ==> final(seen)@ == old(seen)@,
    {
        let ghost open = open_places(self@.log);
        let ghost base = seen@;
        let mut next: Vec<Location> = Vec::new();
        let mut i: usize = 0;
        while i < edge.len()
            invariant
                i <= edge@.len(),
                open == open_places(self@.log),
                base == reach(open, start, n),
                base.subset_of(seen@),
                forall|j: int| 0 <= j < edge@.len() ==> base.contains(#[trigger] edge@[j]),
                forall|q: Location|
                    seen@.contains(q) ==> base.contains(q) || (open.contains(q) && exists|p: Location|
                        #[trigger] base.contains(p) && near(p, q)),
                forall|j: int, q: Location|
                    #![trigger near(edge@[j], q)]
                    0 <= j < i && near(edge@[j], q) && open.contains(q) ==> seen@.contains(q),
                forall|j: int| 0 <= j < next@.len() ==> seen@.contains(#[trigger] next@[j]),
                forall|q: Location| seen@.contains(q) && !base.contains(q) ==> next@.contains(q),
                next@.len() == 0 ==> seen@ == base,
            decreases edge@.len() - i,
        {
            let p = edge[i];
            let mut k: usize = 0;
            while k < 6
                invariant
                    k <= 6,
                    i < edge@.len(),
                    p == edge@[i as int],
                    open == open_places(self@.log),
                    base == reach(open, start, n),
                    base.subset_of(seen@),
                    base.contains(p),
                    forall|q: Location|
                        seen@.contains(q) ==> base.contains(q) || (open.contains(q) && exists|
                            p: Location,
                        |
                            #[trigger] base.contains(p) && near(p, q)),
                    forall|j: int, q: Location|
                        #![trigger near(edge@[j], q)]
                        0 <= j < i && near(edge@[j], q) && open.contains(q) ==> seen@.contains(q),
                    forall|j: int|
                        0 <= j < k && open.contains(
                            p.moved((#[trigger] Dir6::nth(j)).delta().0, Dir6::nth(j).delta().1),
                        ) ==> seen@.contains(
                            p.moved(Dir6::nth(j).delta().0, Dir6::nth(j).delta().1),
                        ),
                    forall|j: int| 0 <= j < next@.len() ==> seen@.contains(#[trigger] next@[j]),
                    forall|q: Location| seen@.contains(q) && !base.contains(q) ==> next@.contains(q),
                    next@.len() == 0 ==> seen@ == base,
                decreases 6 - k,
            {
                let d = Dir6::from_index(k);
                assert(d == Dir6::nth(k as int));
                let q = p.shifted(d.to_v2());
                assert(near(p, q));
                if self.is_open_at(q) && !seen.contains(q) {
                    let ghost before_next = next@;
                    seen.insert(q);
                    next.push(q);
                    proof {
                        assert(next@[before_next.len() as int] == q);
                        assert forall|j: int| 0 <= j < next@.len() implies seen@.contains(
                            #[trigger] next@[j],
                        ) by {
                            if j < before_next.len() {
                                assert(next@[j] == before_next[j]);
                            }
                        }
                        assert forall|x: Location| seen@.contains(x) && !base.contains(x) implies next@.contains(
                            x,
                        ) by {
                            if x != q {
                                let j = choose|j: int| 0 <= j < before_next.len() && before_next[j] == x;
                                assert(next@[j] == x);
                            }
                        }
                    }
                }
                k += 1;
            }
            proof {
                assert forall|j: int, q: Location|
                    #![trigger near(edge@[j], q)]
                    0 <= j < i + 1 && near(edge@[j], q) && open.contains(q) implies seen@.contains(
                    q,
                ) by {
                    if j == i {
                        let k = choose|k: int|
                            0 <= k < 6 && q == p.moved(
                                (#[trigger] Dir6::nth(k)).delta().0,
                                Dir6::nth(k).delta().1,
                            );
                    }
                }
            }
            i += 1;
        }
        proof {
            let target = reach(open, start, n + 1);
            assert(reach(open, start, ((n + 1) - 1) as nat) == base);
            assert(seen@ =~= target) by {
                assert forall|q: Location| target.contains(q) implies seen@.contains(q) by {
                    if !base.contains(q) {
                        let p = choose|p: Location| #[trigger] base.contains(p) && near(p, q);
                        if edge@.contains(p) {
                            let j = choose|j: int| 0 <= j < edge@.len() && edge@[j] == p;
                            assert(near(edge@[j], q));
                        } else {
                            assert(old(seen)@.contains(p) && near(p, q));
                        }
                    }
                }
            }
            assert forall|p: Location, q: Location|
                #![trigger seen@.contains(p), near(p, q)]
                seen@.contains(p) && !next@.contains(p) && near(p, q) && open.contains(
                    q,
                ) implies seen@.contains(q) by {
                assert(base.contains(p));
                if edge@.contains(p) {
                    let j = choose|j: int| 0 <= j < edge@.len() && edge@[j] == p;
                    assert(near(edge@[j], q));
                } else {
                    assert(old(seen)@.contains(p) && near(p, q));
                }
            }
        }
        next
    }

    /// The places that are reached from `start` in at most `range` steps
    /// over open floor.
    pub fn places_within(&self, start: Location, range: u32) -> (seen: LocationSet)
        ensures
            seen@ == reach(open_places(self@.log), start, range as nat),
    {
        let ghost open = open_places(self@.log);
        let mut seen = LocationSet::new();
        seen.insert(start);
        let mut edge: Vec<Location> = Vec::new();
        edge.push(start);
        let mut n: u32 = 0;
        proof {
            assert(seen@ =~= reach(open, start, 0));
            assert(edge@[0] == start);
        }
        while n < range && edge.len() > 0
            invariant
                n <= range,
                open == open_places(self@.log),
                seen@ == reach(open, start, n as nat),
                forall|i: int| 0 <= i < edge@.len() ==> seen@.contains(#[trigger] edge@[i]),
                forall|p: Location, q: Location|
                    #![trigger seen@.contains(p), near(p, q)]
                    seen@.contains(p) && !edge@.contains(p) && near(p, q) && open.contains(q)
                        ==> seen@.contains(q),
            decreases range - n,
        {
            let next = self.step_out(&mut seen, &edge, Ghost(start), Ghost(n as nat));
            edge = next;
            n += 1;
        }
        proof {
            if n < range {
                let now = reach(open, start, n as nat);
                let then = reach(open, start, (n + 1) as nat);
                assert(reach(open, start, ((n + 1) - 1) as nat) == now);
                assert(then =~= now) by {
                    assert forall|q: Location| then.contains(q) implies now.contains(q) by {
                        if !now.contains(q) {
                            let p = choose|p: Location| #[trigger] now.contains(p) && near(p, q);
                            assert(seen@.contains(p) && !edge@.contains(p) && near(p, q));
                        }
                    }
                }
                lemma_reach_stable(open, start, n as nat, range as nat);
            }
        }
        seen
    }

    /// Lets nothing be put within `range` steps of the stairs up, counted
    /// over open floor.
    pub fn clear_spawns_near_entrance(&mut self, range: u32)
        requires
            old(self)@.up_portal is Some,
        ensures
            final(self)@ == (DiggerView {
                spawn_region: old(self)@.spawn_region.difference(
                    reach(open_places(old(self)@.log), old(self)@.up_portal->0, range as nat),
                ),
                ..old(self)@
            }),
    {
        let start = match self.up_portal {
            Some(loc) => loc,
            None => {
                proof {
                    assert(false);
                }
                Location { x: 0, y: 0, z: 0 }
            },
        };
        let near_by = self.places_within(start, range).to_vec();
        let ghost target = reach(open_places(self@.log), start, range as nat);
        let mut i: usize = 0;
        assert(self@.spawn_region =~= old(self)@.spawn_region.difference(
            near_by@.take(0).to_set(),
        ));
        while i < near_by.len()
            invariant
                i <= near_by@.len(),
                self@ == (DiggerView {
                    spawn_region: old(self)@.spawn_region.difference(
                        near_by@.take(i as int).to_set(),
                    ),
                    ..old(self)@
                }),
            decreases near_by@.len() - i,
        {
            self.spawn_region.remove(near_by[i]);
            proof {
                let a = near_by@.take(i as int);
                let b = near_by@.take(i + 1);
                assert(b =~= a.push(near_by@[i as int]));
                assert(b.to_set() =~= a.to_set().insert(near_by@[i as int])) by {
                    assert forall|x: Location| b.to_set().contains(x) implies a.to_set().insert(
                        near_by@[i as int],
                    ).contains(x) by {
                        let k = choose|k: int| 0 <= k < b.len() && b[k] == x;
                        if k < i {
                            assert(a[k] == x);
                        }
                    }
                    assert forall|x: Location| a.to_set().insert(near_by@[i as int]).contains(
                        x,
                    ) implies b.to_set().contains(x) by {
                        if x == near_by@[i as int] {
                            assert(b[i as int] == x);
                        } else {
                            let k = choose|k: int| 0 <= k < a.len() && a[k] == x;
                            assert(b[k] == x);
                        }
                    }
                }
                assert(self@.spawn_region =~= old(self)@.spawn_region.difference(b.to_set()));
            }
            i += 1;
        }
        proof {
            assert(near_by@.take(i as int) =~= near_by@);
        }
    }
}

impl Dungeon for SectorDigger {
    open spec fn chamber_dug(v: DiggerView, area: Seq<CellVector>) -> DiggerView {
        v.dug_all(area, true)
    }

    open spec fn corridor_dug(v: DiggerView, path: Seq<CellVector>) -> DiggerView {
        v.dug_all(path, false)
    }

    /// A room of a size below zero, or of 4096 cells or more in width or
    /// height, is not built.
    open spec fn vault_placed(v: DiggerView, vault: Room, pos: Pt) -> DiggerView {
        if 0 <= vault.width < 0x1000 && 0 <= vault.height < 0x1000 {
            v.with_vault(
                shape_of(vault.width as int, vault.height as int),
                pos,
                shape_of(vault.width as int, vault.height as int).len() as int,
            )
        } else {
            v
        }
    }

    open spec fn door_added(v: DiggerView, pos: Pt) -> DiggerView {
        v.with_door(pos)
    }

    open spec fn up_stairs_added(v: DiggerView, pos: Pt) -> DiggerView {
        v.with_up_stairs(pos)
    }

    open spec fn down_stairs_added(v: DiggerView, pos: Pt) -> DiggerView {
        v.with_down_stairs(pos)
    }

    fn sample_vault(&mut self, rng: &mut XorShiftRng) -> (room: Room)
        ensures
            final(self)@ == old(self)@,
            3 <= room.width < 10,
            3 <= room.height < 10,
    {
        Room::rand(rng)
    }

    fn dig_chamber(&mut self, area: &Vec<CellVector>)
        ensures
            final(self)@ == old(self)@.dug_all(area@, true),
    {
        let mut i: usize = 0;
        while i < area.len()
            invariant
                i <= area@.len(),
                self@ == old(self)@.dug_all(area@.take(i as int), true),
            decreases area@.len() - i,
        {
            let loc = self.loc(area[i]);
            self.spawn_region.insert(loc);
            self.set(loc, Terrain::Ground);
            proof {
                let b = area@.take(i + 1);
                assert(b.drop_last() =~= area@.take(i as int));
                assert(b.last() == area@[i as int]);
            }
            i += 1;
        }
        assert(area@.take(i as int) =~= area@);
    }

    fn dig_corridor(&mut self, path: &Vec<CellVector>)
        ensures
            final(self)@ == old(self)@.dug_all(path@, false),
    {
        let mut i: usize = 0;
        while i < path.len()
            invariant
                i <= path@.len(),
                self@ == old(self)@.dug_all(path@.take(i as int), false),
            decreases path@.len() - i,
        {
            let loc = self.loc(path[i]);
            self.spawn_region.remove(loc);
            self.set(loc, Terrain::Ground);
            proof {
                let b = path@.take(i + 1);
                assert(b.drop_last() =~= path@.take(i as int));
                assert(b.last() == path@[i as int]);
            }
            i += 1;
        }
        assert(path@.take(i as int) =~= path@);
    }

    /// Builds `vault` with its floor from `pos` on.  A room of a size below
    /// zero, or of 4096 cells or more in width or height, is not built.
    fn place_vault(&mut self, vault: &Room, pos: CellVector)
        ensures
            final(self)@ == if 0 <= vault.width < 0x1000 && 0 <= vault.height < 0x1000 {
                old(self)@.with_vault(
                    shape_of(vault.width as int, vault.height as int),
                    pos@,
                    shape_of(vault.width as int, vault.height as int).len() as int,
                )
            } else {
                old(self)@
            },
    {
        if vault.width < 0 || vault.width >= 0x1000 || vault.height < 0 || vault.height >= 0x1000 {
            return ;
        }
        proof {
            assert(0 <= (vault.width + 1) * (vault.height + 1) <= 0x1000 * 0x1000) by (nonlinear_arith)
                requires
                    0 <= vault.width < 0x1000,
                    0 <= vault.height < 0x1000,
            ;
        }
        let shape = vault.get_shape();
        let ghost all = shape_of(vault.width as int, vault.height as int);
        let mut i: usize = 0;
        while i < shape.len()
            invariant
                i <= shape@.len(),
                shape@.len() == all.len(),
                forall|k: int| 0 <= k < shape@.len() ==> ((#[trigger] shape@[k]).0@, shape@[k].1) == all[k],
                self@ == old(self)@.with_vault(all, pos@, i as int),
            decreases shape@.len() - i,
        {
            let (at, cell) = shape[i];
            assert((shape@[i as int].0@, shape@[i as int].1) == all[i as int]);
            let terrain = if cell == VaultCell::Interior {
                Terrain::Ground
            } else {
                Terrain::Wall
            };
            let origin = self.sector.origin();
            let x: i64 = origin.x as i64 + pos.x as i64 + at.x as i64;
            let y: i64 = origin.y as i64 + pos.y as i64 + at.y as i64;
            let loc = Location {
                x: #[verifier::truncate] (x as i16),
                y: #[verifier::truncate] (y as i16),
                z: origin.z,
            };
            assert(loc == self@.sector.place((pos@.0 + at.x, pos@.1 + at.y)));
            self.set(loc, terrain);
            i += 1;
        }
    }

    fn add_door(&mut self, pos: CellVector)
        ensures
            final(self)@ == old(self)@.with_door(pos@),
    {
        let loc = self.loc(pos);
        self.spawn_region.remove(loc);
        self.set(loc, Terrain::Door);
    }

    fn add_up_stairs(&mut self, pos: CellVector)
        ensures
            final(self)@ == old(self)@.with_up_stairs(pos@),
    {
        let loc = self.loc(pos);
        self.up_portal = Some(loc);
        self.spawn_region.remove(loc);
        self.set(loc, Terrain::Gate);
    }

    fn add_down_stairs(&mut self, pos: CellVector)
        ensures
            final(self)@ == old(self)@.with_down_stairs(pos@),
    {
        let loc = self.loc(pos);
        self.down_portal = Some(loc);
        self.spawn_region.remove(loc);
        self.set(loc, Terrain::Gate);
        let front = loc.shifted(CellVector { x: 1, y: 1 });
        self.set(front, Terrain::Empty);
        self.spawn_region.remove(front);
    }
}

} // verus!
