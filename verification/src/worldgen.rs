//! The made world: the surface and the dungeon below it.
//!
//! A world is made from its seed alone and holds nothing that the seed
//! does not give again.  The surface is read from a bitmap; below it one
//! sector is dug for each depth, and stairs lead from each depth to the
//! next.

use vstd::prelude::*;
use rand::XorShiftRng;
use crate::bitmap::{png_bitmap, Bitmap, BitmapView};
use crate::cell::{CellView, EntitySpawn};
use crate::digger::{open_places, reach, DiggerView, MapGen, SectorDigger};
use crate::forms::{listed, pick_form, spawn_table};
use crate::geom::{CellVector, Pt};
use crate::grid::Grid;
use crate::location::{LocTable, Location};
use crate::order::pts;
use crate::rng::{sample_locations, seeded};
use crate::sector::Sector;
use crate::terrain::Terrain;

verus! {

/// A one-way passage from one place to another.
#[derive(Clone, Copy, Debug, PartialEq, Eq, Structural)]
pub struct Portal {
    pub origin: Location,
    pub destination: Location,
}

impl Portal {
    pub fn new(origin: Location, destination: Location) -> (p: Portal)
        ensures
            p == (Portal { origin, destination }),
    {
        Portal { origin, destination }
    }
}

/// Why a world could not be made.
#[derive(Clone, Copy, Debug, PartialEq, Eq, Structural)]
pub enum WorldgenError {
    /// The data of the surface is no PNG file.
    BadBitmap,
    /// The map generator put no stairs up at this depth.
    MissingUpStairs { depth: i16 },
    /// The map generator put no stairs down at this depth.
    MissingDownStairs { depth: i16 },
}

/// How far from the stairs up nothing is put.
pub const SAFE_RANGE: u32 = 12;

/// How many things and creatures are put on each depth at most.
pub const SPAWNS_PER_SECTOR: usize = 20;

/// The number of depths below the surface.
pub const DEPTHS: i16 = 10;

/// A world as contracts see it.
pub struct WorldgenView {
    pub seed: u32,
    pub terrain: Map<Location, Terrain>,
    pub portals: Map<Location, Portal>,
    pub spawns: Seq<(Location, EntitySpawn)>,
    pub player_entry: Location,
}

/// The terrain of places where none was made: ground on the surface, rock
/// below.
pub open spec fn default_terrain(loc: Location) -> Terrain {
    if loc.z == 0 {
        Terrain::Ground
    } else {
        Terrain::Rock
    }
}

impl WorldgenView {
    /// The terrain at `loc`.
    pub open spec fn terrain_at(self, loc: Location) -> Terrain {
        if self.terrain.contains_key(loc) {
            self.terrain[loc]
        } else {
            default_terrain(loc)
        }
    }
}

/// `loc` moved to depth `depth`.
pub open spec fn on_depth(loc: Location, depth: i16) -> Location {
    Location { z: depth, ..loc }
}

/// The terrain that `bitmap`, laid out from `origin`, gives the place
/// `loc`.  The last row of a bitmap holds no terrain, and a colour that
/// stands for none gives none.
pub open spec fn bitmap_terrain(bitmap: BitmapView, origin: Location, loc: Location) -> Option<
    Terrain,
> {
    let x = loc.x - origin.x;
    let y = loc.y - origin.y;
    if loc.z == origin.z && 0 <= x < bitmap.width && 0 <= y < bitmap.height - 1 {
        Terrain::of_color(bitmap.pixel(x, y))
    } else {
        None
    }
}

/// The terrain `base` with the rows before `rows` of `bitmap` laid over
/// it, and of row `rows` the pixels before `cols`.
pub open spec fn with_bitmap_upto(
    base: Map<Location, Terrain>,
    bitmap: BitmapView,
    origin: Location,
    rows: int,
    cols: int,
) -> Map<Location, Terrain> {
    Map::new(
        |loc: Location|
            base.contains_key(loc) || (bitmap_terrain(bitmap, origin, loc) is Some && (loc.y
                - origin.y < rows || (loc.y - origin.y == rows && loc.x - origin.x < cols))),
        |loc: Location|
            if bitmap_terrain(bitmap, origin, loc) is Some && (loc.y - origin.y < rows || (loc.y
                - origin.y == rows && loc.x - origin.x < cols)) {
                bitmap_terrain(bitmap, origin, loc)->0
            } else {
                base[loc]
            },
    )
}

/// The terrain `base` with `bitmap` laid over it from `origin`.
pub open spec fn with_bitmap(base: Map<Location, Terrain>, bitmap: BitmapView, origin: Location) -> Map<
    Location,
    Terrain,
> {
    Map::new(
        |loc: Location| base.contains_key(loc) || bitmap_terrain(bitmap, origin, loc) is Some,
        |loc: Location|
            if bitmap_terrain(bitmap, origin, loc) is Some {
                bitmap_terrain(bitmap, origin, loc)->0
            } else {
                base[loc]
            },
    )
}

/// The terrain `base` with the writes of `log` laid over it on depth
/// `depth`, the later write winning.
pub open spec fn laid(base: Map<Location, Terrain>, depth: i16, log: Seq<(Location, Terrain)>) -> Map<
    Location,
    Terrain,
>
    decreases log.len(),
{
    if log.len() == 0 {
        base
    } else {
        laid(base, depth, log.drop_last()).insert(on_depth(log.last().0, depth), log.last().1)
    }
}

/// Laying writes on one depth leaves every other depth as it was.
pub proof fn lemma_laid_other_depths(
    base: Map<Location, Terrain>,
    depth: i16,
    log: Seq<(Location, Terrain)>,
    loc: Location,
)
    requires
        loc.z != depth,
    ensures
        laid(base, depth, log).contains_key(loc) == base.contains_key(loc),
        base.contains_key(loc) ==> laid(base, depth, log)[loc] == base[loc],
    decreases log.len(),
{
    if log.len() > 0 {
        lemma_laid_other_depths(base, depth, log.drop_last(), loc);
    }
}

/// The terrain with the way down to a cave made at `loc`: rock around, and
/// ground at `loc` and in front of it.
pub open spec fn with_cave_entrance(base: Map<Location, Terrain>, loc: Location) -> Map<
    Location,
    Terrain,
> {
    base.insert(loc.moved(1, 0), Terrain::Rock).insert(loc.moved(0, 1), Terrain::Rock).insert(
        loc.moved(2, 1),
        Terrain::Rock,
    ).insert(loc.moved(1, 2), Terrain::Rock).insert(loc.moved(2, 2), Terrain::Rock).insert(
        loc,
        Terrain::Ground,
    ).insert(loc.moved(1, 1), Terrain::Ground)
}

/// Whether `at` is a place of `region`, moved to depth `depth`.
pub open spec fn from_region(region: Set<Location>, depth: i16, at: Location) -> bool {
    exists|loc: Location| #[trigger] region.contains(loc) && at == on_depth(loc, depth)
}

/// Whether `fresh` is a fair lot of things and creatures for `depth`, put
/// on places of `region`: twenty at most and no more than there are
/// places, the first half of them things and the rest creatures, all of
/// kinds that turn up at this depth.
pub open spec fn fair_spawns(
    fresh: Seq<(Location, EntitySpawn)>,
    region: Set<Location>,
    depth: i16,
) -> bool {
    &&& fresh.len() <= SPAWNS_PER_SECTOR
    &&& region.finite() ==> fresh.len() == if region.len() < SPAWNS_PER_SECTOR {
        region.len()
    } else {
        SPAWNS_PER_SECTOR as nat
    }
    &&& forall|i: int| 0 <= i < fresh.len() ==> from_region(region, depth, (#[trigger] fresh[i]).0)
    &&& forall|i: int|
        0 <= i < fresh.len() ==> listed((#[trigger] fresh[i]).1, i < fresh.len() / 2, depth as int)
}

/// The world after the sector `digger` has become its depth `depth`, with
/// the things and creatures `fresh` on it.  Stairs lead from `entrance`,
/// on the depth above, to the cell in front of the stairs up, and from the
/// stairs up to the cell behind `entrance`.
pub open spec fn with_sector(
    world: WorldgenView,
    digger: DiggerView,
    depth: i16,
    entrance: Location,
    fresh: Seq<(Location, EntitySpawn)>,
) -> WorldgenView {
    let up = on_depth(digger.up_portal->0, depth);
    WorldgenView {
        terrain: laid(world.terrain, depth, digger.log),
        portals: world.portals.insert(
            entrance,
            Portal { origin: entrance, destination: up.moved(1, 1) },
        ).insert(up, Portal { origin: up, destination: entrance.moved(-1, -1) }),
        spawns: world.spawns + fresh,
        ..world
    }
}

/// The place of the cell `p` of a prefab laid out from `origin`, if it is
/// within the range of coordinates.
pub open spec fn placed(origin: Location, p: Pt) -> Option<Location> {
    if i16::MIN <= origin.x + p.0 <= i16::MAX && i16::MIN <= origin.y + p.1 <= i16::MAX {
        Some(Location { x: (origin.x + p.0) as i16, y: (origin.y + p.1) as i16, z: origin.z })
    } else {
        None
    }
}

/// The world with the first `n` of `spawns` put at `loc`.  The player is
/// not put: where the player stands is where the world is entered.
pub open spec fn with_spawns(world: WorldgenView, loc: Location, spawns: Seq<EntitySpawn>, n: int) -> WorldgenView
    decreases n,
{
    if n <= 0 {
        world
    } else {
        let w = with_spawns(world, loc, spawns, n - 1);
        if spawns[n - 1] == EntitySpawn::Player {
            WorldgenView { player_entry: loc, ..w }
        } else {
            WorldgenView { spawns: w.spawns.push((loc, spawns[n - 1])), ..w }
        }
    }
}

/// The world with the cell `c` of a prefab laid at `p` from `origin`.  A
/// cell of no terrain, or one beyond the range of coordinates, is not
/// laid.
pub open spec fn with_cell(world: WorldgenView, origin: Location, p: Pt, c: CellView) -> WorldgenView {
    match placed(origin, p) {
        Some(loc) => {
            if c.terrain != Terrain::Empty {
                with_spawns(
                    WorldgenView { terrain: world.terrain.insert(loc, c.terrain), ..world },
                    loc,
                    c.spawns,
                    c.spawns.len() as int,
                )
            } else {
                world
            }
        },
        None => world,
    }
}

/// The world with the first `n` cells of `cells` of `prefab` laid from
/// `origin`, in turn.
pub open spec fn with_prefab(
    world: WorldgenView,
    prefab: Map<Pt, CellView>,
    origin: Location,
    cells: Seq<CellVector>,
    n: int,
) -> WorldgenView
    decreases n,
{
    if n <= 0 {
        world
    } else {
        with_cell(
            with_prefab(world, prefab, origin, cells, n - 1),
            origin,
            cells[n - 1]@,
            prefab[cells[n - 1]@],
        )
    }
}

/// A made world.
pub struct Worldgen {
    seed: u32,
    terrain: LocTable<Terrain>,
    portals: LocTable<Portal>,
    spawns: Vec<(Location, EntitySpawn)>,
    player_entry: Location,
}

impl View for Worldgen {
    type V = WorldgenView;

    closed spec fn view(&self) -> WorldgenView {
        WorldgenView {
            seed: self.seed,
            terrain: self.terrain@,
            portals: self.portals@,
            spawns: self.spawns@,
            player_entry: self.player_entry,
        }
    }
}

impl Worldgen {
    /// A world with nothing made yet.  The player enters at `(25, 0)` on
    /// the surface.
    pub fn blank(seed: u32) -> (w: Worldgen)
        ensures
            w@ == (WorldgenView {
                seed,
                terrain: Map::empty(),
                portals: Map::empty(),
                spawns: Seq::empty(),
                player_entry: Location { x: 25, y: 0, z: 0 },
            }),
    {
        Worldgen {
            seed,
            terrain: LocTable::new(),
            portals: LocTable::new(),
            spawns: Vec::new(),
            player_entry: Location::new(25, 0, 0),
        }
    }

    /// The seed that the world was made from.
    pub fn seed(&self) -> (s: u32)
        ensures
            s == self@.seed,
    {
        self.seed
    }

    /// The terrain at `loc`: what was made there, and where nothing was
    /// made ground on the surface and rock below.
    pub fn get_terrain(&self, loc: Location) -> (t: Terrain)
        ensures
            t == self@.terrain_at(loc),
    {
        match self.terrain.get(loc) {
            Some(t) => *t,
            None => Worldgen::default_terrain(loc),
        }
    }

    /// The terrain of a place where none was made.
    pub fn default_terrain(loc: Location) -> (t: Terrain)
        ensures
            t == default_terrain(loc),
    {
        if loc.z == 0 {
            Terrain::Ground
        } else {
            Terrain::Rock
        }
    }

    /// Where the passage at `loc` leads, if there is one.
    pub fn get_portal(&self, loc: Location) -> (r: Option<Location>)
        ensures
            r == if self@.portals.contains_key(loc) {
                Some(self@.portals[loc].destination)
            } else {
                None::<Location>
            },
    {
        match self.portals.get(loc) {
            Some(p) => Some(p.destination),
            None => None,
        }
    }

    /// The things and creatures of the world with their places, in the
    /// order in which they were put.
    pub fn spawns(&self) -> (out: &Vec<(Location, EntitySpawn)>)
        ensures
            out@ == self@.spawns,
    {
        &self.spawns
    }

    /// Where the player enters the world.
    pub fn player_entry(&self) -> (loc: Location)
        ensures
            loc == self@.player_entry,
    {
        self.player_entry
    }

    /// Makes a way down to a cave at `loc`.
    pub fn cave_entrance(&mut self, loc: Location)
        ensures
            final(self)@ == (WorldgenView {
                terrain: with_cave_entrance(old(self)@.terrain, loc),
                ..old(self)@
            }),
    {
        self.terrain.insert(loc.shifted(CellVector { x: 1, y: 0 }), Terrain::Rock);
        self.terrain.insert(loc.shifted(CellVector { x: 0, y: 1 }), Terrain::Rock);
        self.terrain.insert(loc.shifted(CellVector { x: 2, y: 1 }), Terrain::Rock);
        self.terrain.insert(loc.shifted(CellVector { x: 1, y: 2 }), Terrain::Rock);
        self.terrain.insert(loc.shifted(CellVector { x: 2, y: 2 }), Terrain::Rock);
        self.terrain.insert(loc, Terrain::Ground);
        self.terrain.insert(loc.shifted(CellVector { x: 1, y: 1 }), Terrain::Ground);
    }

    /// Opens a one-way passage from `origin` to `destination`.
    pub fn portal(&mut self, origin: Location, destination: Location)
        ensures
            final(self)@ == (WorldgenView {
                portals: old(self)@.portals.insert(origin, (Portal { origin, destination })),
                ..old(self)@
            }),
    {
        self.portals.insert(origin, Portal::new(origin, destination));
    }

    /// Writes terrain `t` at `loc`.
    pub fn set_terrain(&mut self, loc: Location, t: Terrain)
        ensures
            final(self)@ == (WorldgenView {
                terrain: old(self)@.terrain.insert(loc, t),
                ..old(self)@
            }),
    {
        self.terrain.insert(loc, t);
    }

    /// Lays `bitmap` over the terrain, its first pixel at `origin`.  The
    /// last row of the bitmap holds no terrain.  A pixel whose colour
    /// stands for no terrain, or whose place is beyond the range of
    /// coordinates, writes nothing.
    pub fn load_bitmap(&mut self, origin: Location, bitmap: &Bitmap)
        ensures
            final(self)@ == (WorldgenView {
                terrain: with_bitmap(old(self)@.terrain, bitmap@, origin),
                ..old(self)@
            }),
    {
        let w = bitmap.width();
        let h = bitmap.height();
        let ghost base = self@.terrain;
        if h == 0 {
            assert(self@.terrain =~= with_bitmap(base, bitmap@, origin));
            return ;
        }
        let mut y: u32 = 0;
        assert(self@.terrain =~= with_bitmap_upto(base, bitmap@, origin, 0, 0));
        while y < h - 1
            invariant
                0 <= y <= h - 1,
                w == bitmap@.width,
                h == bitmap@.height,
                self@ == (WorldgenView {
                    terrain: with_bitmap_upto(base, bitmap@, origin, y as int, 0),
                    ..old(self)@
                }),
            decreases h - 1 - y,
        {
            let mut x: u32 = 0;
            while x < w
                invariant
                    0 <= x <= w,
                    0 <= y < h - 1,
                    w == bitmap@.width,
                    h == bitmap@.height,
                    self@ == (WorldgenView {
                        terrain: with_bitmap_upto(base, bitmap@, origin, y as int, x as int),
                        ..old(self)@
                    }),
                decreases w - x,
            {
                let ghost before = self@.terrain;
                match origin.offset(x as i64, y as i64) {
                    Some(loc) => {
                        match Terrain::from_color(bitmap.pixel(x, y)) {
                            Some(t) => {
                                self.terrain.insert(loc, t);
                            },
                            None => {},
                        }
                    },
                    None => {},
                }
                x += 1;
                assert(self@.terrain =~= with_bitmap_upto(
                    base,
                    bitmap@,
                    origin,
                    y as int,
                    x as int,
                ));
            }
            y += 1;
            assert(self@.terrain =~= with_bitmap_upto(base, bitmap@, origin, y as int, 0));
        }
        assert(self@.terrain =~= with_bitmap(base, bitmap@, origin));
    }

    /// Lays the bitmap that the PNG file `data` holds over the terrain,
    /// its first pixel at `origin`.  Data that is no PNG file changes
    /// nothing.
    pub fn load_map_bitmap(&mut self, origin: Location, data: &[u8]) -> (r: Result<
        (),
        WorldgenError,
    >)
        ensures
            match r {
                Ok(_) => png_bitmap(data@) is Some && final(self)@ == (WorldgenView {
                    terrain: with_bitmap(old(self)@.terrain, png_bitmap(data@)->0, origin),
                    ..old(self)@
                }),
                Err(e) => png_bitmap(data@) is None && e == WorldgenError::BadBitmap
                    && final(self)@ == old(self)@,
            },
    {
        match Bitmap::from_png(data) {
            Some(bitmap) => {
                self.load_bitmap(origin, &bitmap);
                Ok(())
            },
            None => Err(WorldgenError::BadBitmap),
        }
    }

    /// Lays `prefab` into the world from `origin`, cell by cell in the
    /// fixed order: the terrain of each cell, and what waits on it.
    pub fn load_prefab(&mut self, origin: Location, prefab: &Grid)
        ensures
            exists|cells: Seq<CellVector>|
                crate::order::ascending(cells) && pts(cells) == prefab@.dom() && final(self)@
                    == #[trigger] with_prefab(
                    old(self)@,
                    prefab@,
                    origin,
                    cells,
                    cells.len() as int,
                ),
    {
        let cells = prefab.positions();
        let mut i: usize = 0;
        while i < cells.len()
            invariant
                i <= cells@.len(),
                pts(cells@) == prefab@.dom(),
                self@ == with_prefab(old(self)@, prefab@, origin, cells@, i as int),
            decreases cells@.len() - i,
        {
            let p = cells[i];
            assert(pts(cells@).contains(cells@[i as int]@));
            let ghost before = self@;
            match prefab.get(p) {
                Some(cell) => {
                    match origin.offset(p.x as i64, p.y as i64) {
                        Some(loc) => {
                            if cell.terrain != Terrain::Empty {
                                self.terrain.insert(loc, cell.terrain);
                                let ghost laid_down = self@;
                                let mut k: usize = 0;
                                while k < cell.spawns.len()
                                    invariant
                                        k <= cell.spawns@.len(),
                                        self@ == with_spawns(
                                            laid_down,
                                            loc,
                                            cell.spawns@,
                                            k as int,
                                        ),
                                    decreases cell.spawns@.len() - k,
                                {
                                    let spawn = cell.spawns[k];
                                    if spawn == EntitySpawn::Player {
                                        self.player_entry = loc;
                                    } else {
                                        self.spawns.push((loc, spawn));
                                    }
                                    k += 1;
                                }
                            }
                        },
                        None => {},
                    }
                },
                None => {},
            }
            i += 1;
        }
        assert(crate::order::ascending(cells@) && pts(cells@) == prefab@.dom() && self@
            == with_prefab(old(self)@, prefab@, origin, cells@, cells@.len() as int));
    }

    /// Lays the writes of `log` over the terrain, on depth `depth`.
    fn lay(&mut self, depth: i16, log: &Vec<(Location, Terrain)>)
        ensures
            final(self)@ == (WorldgenView {
                terrain: laid(old(self)@.terrain, depth, log@),
                ..old(self)@
            }),
    {
        let mut i: usize = 0;
        assert(log@.take(0).len() == 0);
        while i < log.len()
            invariant
                i <= log@.len(),
                self@ == (WorldgenView {
                    terrain: laid(old(self)@.terrain, depth, log@.take(i as int)),
                    ..old(self)@
                }),
            decreases log@.len() - i,
        {
            let (loc, t) = log[i];
            self.terrain.insert(Location { x: loc.x, y: loc.y, z: depth }, t);
            proof {
                let b = log@.take(i + 1);
                assert(b.drop_last() =~= log@.take(i as int));
                assert(b.last() == log@[i as int]);
            }
            i += 1;
        }
        assert(log@.take(i as int) =~= log@);
    }

    /// Takes the dug sector `digger` into the world as its depth `depth`,
    /// and returns the stairs that lead further down.
    ///
    /// Nothing is put within twelve steps of the stairs up.  Of the other
    /// places on which things may be put, up to twenty are drawn, the first
    /// half of them for things and the rest for creatures.  A passage is
    /// opened from `entrance`, the stairs on the depth above, to the stairs
    /// up of this depth, and one back.
    ///
    /// A sector without stairs up or stairs down is not taken in.  The
    /// depth is below the surface: nothing turns up on the surface.
    pub fn finish_sector(
        &mut self,
        digger: SectorDigger,
        depth: i16,
        rng: &mut XorShiftRng,
        entrance: Location,
    ) -> (r: Result<Location, WorldgenError>)
        requires
            depth >= 1,
        ensures
            match r {
                Ok(down) => {
                    &&& digger@.up_portal is Some
                    &&& digger@.down_portal is Some
                    &&& down == on_depth(digger@.down_portal->0, depth)
                    &&& exists|fresh: Seq<(Location, EntitySpawn)>|
                        fair_spawns(
                            fresh,
                            digger@.spawn_region.difference(
                                reach(
                                    open_places(digger@.log),
                                    digger@.up_portal->0,
                                    SAFE_RANGE as nat,
                                ),
                            ),
                            depth,
                        ) && final(self)@ == #[trigger] with_sector(
                            old(self)@,
                            digger@,
                            depth,
                            entrance,
                            fresh,
                        )
                },
                Err(e) => final(self)@ == old(self)@ && if digger@.up_portal is None {
                    e == (WorldgenError::MissingUpStairs { depth })
                } else {
                    digger@.down_portal is None && e == (WorldgenError::MissingDownStairs { depth })
                },
            },
    {
        let up_stairs = match digger.up_portal() {
            Some(loc) => Location { x: loc.x, y: loc.y, z: depth },
            None => {
                return Err(WorldgenError::MissingUpStairs { depth });
            },
        };
        let down_stairs = match digger.down_portal() {
            Some(loc) => Location { x: loc.x, y: loc.y, z: depth },
            None => {
                return Err(WorldgenError::MissingDownStairs { depth });
            },
        };
        let ghost dug = digger@;
        let mut digger = digger;
        digger.clear_spawns_near_entrance(SAFE_RANGE);
        let ghost region = digger@.spawn_region;
        let places = digger.spawn_places();
        let spawn_locs = sample_locations(rng, &places, SPAWNS_PER_SECTOR);
        let n_spawns = spawn_locs.len();
        let items = spawn_table(true, depth);
        let mobs = spawn_table(false, depth);
        self.lay(depth, digger.written());
        let ghost before = self@.spawns;
        let mut i: usize = 0;
        let ghost mut fresh: Seq<(Location, EntitySpawn)> = Seq::empty();
        assert(self@.spawns =~= before + fresh);
        while i < n_spawns
            invariant
                i <= n_spawns,
                n_spawns == spawn_locs@.len(),
                depth >= 1,
                items@.len() > 0,
                mobs@.len() > 0,
                forall|e: EntitySpawn| items@.contains(e) <==> listed(e, true, depth as int),
                forall|e: EntitySpawn| mobs@.contains(e) <==> listed(e, false, depth as int),
                fresh.len() == i,
                forall|k: int|
                    0 <= k < i ==> (#[trigger] fresh[k]).0 == on_depth(spawn_locs@[k], depth) && listed(
                        fresh[k].1,
                        k < n_spawns / 2,
                        depth as int,
                    ),
                self@ == (WorldgenView { spawns: before + fresh, ..old(self)@ }).with_terrain(
                    laid(old(self)@.terrain, depth, dug.log),
                ),
            decreases n_spawns - i,
        {
            let loc = spawn_locs[i];
            let form = if i < n_spawns / 2 {
                pick_form(rng, &items)
            } else {
                pick_form(rng, &mobs)
            };
            self.spawns.push((Location { x: loc.x, y: loc.y, z: depth }, form));
            proof {
                let entry = (on_depth(loc, depth), form);
                let ghost grown = fresh.push(entry);
                assert(self@.spawns =~= before + grown);
                assert forall|k: int| 0 <= k < i + 1 implies (#[trigger] grown[k]).0 == on_depth(
                    spawn_locs@[k],
                    depth,
                ) && listed(grown[k].1, k < n_spawns / 2, depth as int) by {
                    if k < i {
                        assert(grown[k] == fresh[k]);
                    }
                }
                fresh = grown;
            }
            i += 1;
        }
        self.portal(entrance, up_stairs.shifted(CellVector { x: 1, y: 1 }));
        self.portal(up_stairs, entrance.shifted(CellVector { x: -1, y: -1 }));
        proof {
            assert(places@.to_set() == region);
            assert(fair_spawns(fresh, region, depth)) by {
                assert forall|k: int| 0 <= k < fresh.len() implies from_region(
                    region,
                    depth,
                    (#[trigger] fresh[k]).0,
                ) by {
                    assert(places@.contains(spawn_locs@[k]));
                    assert(region.contains(spawn_locs@[k]));
                }
                if region.finite() {
                    lemma_rising_len(places@);
                }
            }
            assert(self@ == with_sector(old(self)@, dug, depth, entrance, fresh));
        }
        Ok(down_stairs)
    }

    /// Makes the world of seed `seed`: the surface from the PNG file
    /// `overland`, and below it ten depths that `mapgen` digs.
    ///
    /// The surface is laid out from `(0, 0)`.  The way down is at
    /// `(40, 12)`, and from each depth stairs lead on to the next.
    pub fn new<G: MapGen>(seed: u32, overland: &[u8], mapgen: &G) -> (r: Result<
        Worldgen,
        WorldgenError,
    >)
        requires
            seed != 0,
        ensures
            png_bitmap(overland@) is None <==> r == Err::<Worldgen, WorldgenError>(
                WorldgenError::BadBitmap,
            ),
            r matches Ok(w) ==> {
                &&& w@.seed == seed
                &&& w@.player_entry == (Location { x: 25, y: 0, z: 0 })
                &&& forall|loc: Location|
                    loc.z == 0 ==> w@.terrain_at(loc) == (WorldgenView {
                        terrain: surface(png_bitmap(overland@)->0),
                        ..w@
                    }).terrain_at(loc)
                &&& forall|loc: Location|
                    w@.terrain.contains_key(loc) ==> 0 <= loc.z <= DEPTHS
                &&& w@.spawns.len() <= DEPTHS * SPAWNS_PER_SECTOR
                &&& forall|i: int|
                    0 <= i < w@.spawns.len() ==> 1 <= (#[trigger] w@.spawns[i]).0.z <= DEPTHS
                        && w@.spawns[i].1 != EntitySpawn::Player && w@.spawns[i].1.at_depth(
                        w@.spawns[i].0.z as int,
                    )
                &&& w@.portals.contains_key(Location { x: 40, y: 12, z: 0 })
                &&& w@.portals[Location { x: 40, y: 12, z: 0 }].destination.z == 1
                &&& forall|loc: Location|
                    w@.portals.contains_key(loc) ==> between_depths(#[trigger] w@.portals[loc], loc)
            },
    {
        let mut ret = Worldgen::blank(seed);
        match ret.load_map_bitmap(Location::new(0, 0, 0), overland) {
            Ok(_) => {},
            Err(e) => {
                return Err(e);
            },
        }
        let mut rng = seeded(seed);
        let first = Location::new(40, 12, 0);
        let mut cave_entrance = first;
        ret.cave_entrance(cave_entrance);
        ret.set_terrain(cave_entrance, Terrain::Gate);
        ret.set_terrain(cave_entrance.shifted(CellVector { x: 1, y: 1 }), Terrain::Empty);
        let ghost top = ret@.terrain;
        proof {
            assert(top == surface(png_bitmap(overland@)->0));
            assert forall|loc: Location| top.contains_key(loc) implies loc.z == 0 by {
                lemma_surface_depth(png_bitmap(overland@)->0, loc);
            }
        }
        let mut depth: i16 = 1;
        while depth <= DEPTHS
            invariant
                1 <= depth <= DEPTHS + 1,
                png_bitmap(overland@) is Some,
                first == (Location { x: 40, y: 12, z: 0 }),
                ret@.seed == seed,
                ret@.player_entry == (Location { x: 25, y: 0, z: 0 }),
                cave_entrance.z == depth - 1,
                depth == 1 ==> cave_entrance == first,
                forall|loc: Location|
                    #![trigger ret@.terrain.contains_key(loc)]
                    loc.z == 0 ==> ret@.terrain.contains_key(loc) == top.contains_key(loc) && (
                    top.contains_key(loc) ==> ret@.terrain[loc] == top[loc]),
                forall|loc: Location| ret@.terrain.contains_key(loc) ==> 0 <= loc.z < depth,
                ret@.spawns.len() <= (depth - 1) * SPAWNS_PER_SECTOR,
                forall|i: int|
                    0 <= i < ret@.spawns.len() ==> 1 <= (#[trigger] ret@.spawns[i]).0.z < depth
                        && ret@.spawns[i].1 != EntitySpawn::Player && ret@.spawns[i].1.at_depth(
                        ret@.spawns[i].0.z as int,
                    ),
                depth > 1 ==> ret@.portals.contains_key(first) && ret@.portals[first].destination.z
                    == 1,
                forall|loc: Location|
                    ret@.portals.contains_key(loc) ==> between_depths(
                        #[trigger] ret@.portals[loc],
                        loc,
                    ),
            decreases DEPTHS + 1 - depth,
        {
            let mut digger = SectorDigger::new(Sector::new(0, 0, depth));
            let domain = digger.domain();
            mapgen.dig(&mut rng, &mut digger, &domain);
            let ghost before = ret@;
            let ghost dug = digger@;
            match ret.finish_sector(digger, depth, &mut rng, cave_entrance) {
                Ok(down) => {
                    proof {
                        let fresh = choose|fresh: Seq<(Location, EntitySpawn)>|
                            fair_spawns(
                                fresh,
                                dug.spawn_region.difference(
                                    reach(open_places(dug.log), dug.up_portal->0, SAFE_RANGE as nat),
                                ),
                                depth,
                            ) && ret@ == #[trigger] with_sector(
                                before,
                                dug,
                                depth,
                                cave_entrance,
                                fresh,
                            );
                        assert(ret@ == with_sector(before, dug, depth, cave_entrance, fresh));
                        assert(ret@.terrain == laid(before.terrain, depth, dug.log));
                        assert forall|loc: Location|
                            #![trigger ret@.terrain.contains_key(loc)]
                            loc.z == 0 implies ret@.terrain.contains_key(loc) == top.contains_key(
                            loc,
                        ) && (top.contains_key(loc) ==> ret@.terrain[loc] == top[loc]) by {
                            lemma_laid_other_depths(before.terrain, depth, dug.log, loc);
                            assert(before.terrain.contains_key(loc) == top.contains_key(loc));
                        }
                        assert forall|loc: Location| ret@.terrain.contains_key(loc) implies 0
                            <= loc.z < depth + 1 by {
                            if loc.z != depth {
                                lemma_laid_other_depths(before.terrain, depth, dug.log, loc);
                            }
                        }
                        assert forall|i: int| 0 <= i < ret@.spawns.len() implies 1 <= (
                        #[trigger] ret@.spawns[i]).0.z < depth + 1 && ret@.spawns[i].1
                            != EntitySpawn::Player && ret@.spawns[i].1.at_depth(
                            ret@.spawns[i].0.z as int,
                        ) by {
                            if i < before.spawns.len() {
                                assert(ret@.spawns[i] == before.spawns[i]);
                            } else {
                                let k = i - before.spawns.len();
                                assert(ret@.spawns[i] == fresh[k]);
                                assert(listed(fresh[k].1, k < fresh.len() / 2, depth as int));
                                assert(from_region(
                                    dug.spawn_region.difference(
                                        reach(
                                            open_places(dug.log),
                                            dug.up_portal->0,
                                            SAFE_RANGE as nat,
                                        ),
                                    ),
                                    depth,
                                    fresh[k].0,
                                ));
                            }
                        }
                        let up = on_depth(dug.up_portal->0, depth);
                        assert(up.z == depth);
                        assert(up != first);
                        assert forall|loc: Location|
                            ret@.portals.contains_key(loc) implies between_depths(
                            #[trigger] ret@.portals[loc],
                            loc,
                        ) by {
                            if loc != up && loc != cave_entrance {
                                assert(before.portals.contains_key(loc));
                                assert(ret@.portals[loc] == before.portals[loc]);
                            }
                        }
                        if depth == 1 {
                            assert(ret@.portals[first].destination == up.moved(1, 1));
                        }
                    }
                    cave_entrance = down;
                },
                Err(e) => {
                    return Err(e);
                },
            }
            depth += 1;
        }
        Ok(ret)
    }
}

impl WorldgenView {
    /// The world with its terrain replaced.
    pub open spec fn with_terrain(self, terrain: Map<Location, Terrain>) -> WorldgenView {
        WorldgenView { terrain, ..self }
    }
}

/// Whether `portal`, found at `loc`, leads from `loc` to the depth above
/// or below.
pub open spec fn between_depths(portal: Portal, loc: Location) -> bool {
    &&& portal.origin == loc
    &&& 0 <= loc.z <= DEPTHS
    &&& portal.destination.z == loc.z + 1 || portal.destination.z == loc.z - 1
}

/// The terrain of the surface that `bitmap` gives: the bitmap laid out
/// from `(0, 0)`, and the way down at `(40, 12)` with its stairs and
/// nothing in front of them.
pub open spec fn surface(bitmap: BitmapView) -> Map<Location, Terrain> {
    let first = Location { x: 40, y: 12, z: 0 };
    with_cave_entrance(
        with_bitmap(Map::empty(), bitmap, Location { x: 0, y: 0, z: 0 }),
        first,
    ).insert(first, Terrain::Gate).insert(first.moved(1, 1), Terrain::Empty)
}

/// The surface lies on depth zero.
pub proof fn lemma_surface_depth(bitmap: BitmapView, loc: Location)
    requires
        surface(bitmap).contains_key(loc),
    ensures
        loc.z == 0,
{
}

/// A rising list stands for as many places as it is long.
proof fn lemma_rising_len(s: Seq<Location>)
    requires
        crate::location::rising(s),
    ensures
        s.to_set().finite(),
        s.to_set().len() == s.len(),
{
    assert(s.no_duplicates()) by {
        assert forall|i: int, j: int| 0 <= i < s.len() && 0 <= j < s.len() && i != j implies s[i]
            != s[j] by {
            if i < j {
                assert(crate::location::loc_lt(s[i], s[j]));
            } else {
                assert(crate::location::loc_lt(s[j], s[i]));
            }
        }
    }
    s.unique_seq_to_set();
}

} // verus!
