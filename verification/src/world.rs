//! The running state of a game: terrain that has been set, the mobs that
//! live, and the count of frames.

use vstd::prelude::*;
use std::collections::HashMap;
use crate::components::Icon;
use crate::location::{LocTable, Location};
use crate::terrain::Terrain;

verus! {

/// A creature of the world.
#[derive(Clone, Copy, Debug, PartialEq, Eq, Structural)]
pub struct Mob {
    /// The number under which the world knows the mob.
    pub id: u64,
    pub loc: Location,
    pub icon: Icon,
}

pub struct World {
    seed: u32,
    next_id: u64,
    tick: u64,
    pub depth: i32,
    pub area: LocTable<Terrain>,
    pub mobs: HashMap<u64, Mob>,
}

/// The state of a world, as contracts see it.
pub struct WorldView {
    /// The seed that the world was made with.
    pub seed: u32,
    /// The number that the next mob gets.
    pub next_id: u64,
    /// The count of frames so far.
    pub tick: u64,
    pub depth: i32,
    pub area: Map<Location, Terrain>,
    pub mobs: Map<u64, Mob>,
}

impl View for World {
    type V = WorldView;

    closed spec fn view(&self) -> WorldView {
        WorldView {
            seed: self.seed,
            next_id: self.next_id,
            tick: self.tick,
            depth: self.depth,
            area: self.area@,
            mobs: self.mobs@,
        }
    }
}

impl World {
    /// A world at its first frame, with no terrain set and no mob.
    pub fn new(seed: u32) -> (w: World)
        ensures
            w@ == (WorldView {
                seed,
                next_id: 1,
                tick: 0,
                depth: 0,
                area: Map::empty(),
                mobs: Map::empty(),
            }),
    {
        World {
            seed,
            next_id: 1,
            tick: 0,
            depth: 0,
            area: LocTable::new(),
            mobs: HashMap::new(),
        }
    }

    /// The terrain set at `loc`, if any.
    pub fn terrain_get(&self, loc: Location) -> (t: Option<Terrain>)
        ensures
            t == if self@.area.contains_key(loc) {
                Some(self@.area[loc])
            } else {
                None::<Terrain>
            },
    {
        match self.area.get(loc) {
            Some(t) => Some(*t),
            None => None,
        }
    }

    pub fn terrain_set(&mut self, loc: Location, t: Terrain)
        ensures
            final(self)@ == (WorldView { area: old(self)@.area.insert(loc, t), ..old(self)@ }),
    {
        self.area.insert(loc, t);
    }

    pub fn terrain_clear(&mut self, loc: Location)
        ensures
            final(self)@ == (WorldView { area: old(self)@.area.remove(loc), ..old(self)@ }),
    {
        self.area.remove(loc);
    }

    /// Hands out the next number for a mob.  Numbers start at one and
    /// none is handed out twice.
    pub fn make_id(&mut self) -> (id: u64)
        requires
            old(self)@.next_id < u64::MAX,
        ensures
            id == old(self)@.next_id,
            final(self)@ == (WorldView { next_id: (id + 1) as u64, ..old(self)@ }),
    {
        let ret = self.next_id;
        self.next_id += 1;
        ret
    }

    /// Takes `mob` into the world under a number of its own, and returns
    /// that number.
    pub fn insert_mob(&mut self, mob: Mob) -> (id: u64)
        requires
            old(self)@.next_id < u64::MAX,
        ensures
            id == old(self)@.next_id,
            final(self)@ == (WorldView {
                next_id: (id + 1) as u64,
                mobs: old(self)@.mobs.insert(id, (Mob { id, ..mob })),
                ..old(self)@
            }),
    {
        broadcast use vstd::std_specs::hash::group_hash_axioms;

        let mut mob = mob;
        mob.id = self.make_id();
        self.mobs.insert(mob.id, mob);
        mob.id
    }

    pub fn remove_mob(&mut self, id: u64)
        ensures
            final(self)@ == (WorldView { mobs: old(self)@.mobs.remove(id), ..old(self)@ }),
    {
        broadcast use vstd::std_specs::hash::group_hash_axioms;

        self.mobs.remove(&id);
    }

    pub fn rng_seed(&self) -> (s: u32)
        ensures
            s == self@.seed,
    {
        self.seed
    }

    pub fn get_tick(&self) -> (t: u64)
        ensures
            t == self@.tick,
    {
        self.tick
    }

    /// Goes on to the next frame.
    pub fn advance_frame(&mut self)
        requires
            old(self)@.tick < u64::MAX,
        ensures
            final(self)@ == (WorldView { tick: (old(self)@.tick + 1) as u64, ..old(self)@ }),
    {
        self.tick += 1;
    }
}

} // verus!
