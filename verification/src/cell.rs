//! Cells of a level under construction.

use vstd::prelude::*;
use crate::terrain::Terrain;

verus! {

/// Where a cell lies in a room template.
#[derive(Clone, Copy, Debug, PartialEq, Eq, Hash, Structural)]
pub enum VaultKind {
    /// Protected floor of a room: tunnels may pass, nothing is placed on it.
    Interior,
    /// Wall shell of a room.  Where it can be dug, a door may go there.
    Border,
}

/// A creature or thing to make when the level comes to life.
#[derive(Clone, Copy, Debug, PartialEq, Eq, Hash, Structural)]
pub enum EntitySpawn {
    Player,
    Snake,
    Dreg,
    Ogre,
    Wraith,
    Octopus,
    Bug,
    Ooze,
    Efreet,
    Serpent,
    Sword,
    Helmet,
    Armor,
    Wand1,
    Wand2,
    Scroll1,
}

/// What a cell holds, as contracts see it.
pub struct CellView {
    pub terrain: Terrain,
    pub spawns: Seq<EntitySpawn>,
    pub can_dig: bool,
    pub vault_kind: Option<VaultKind>,
}

impl CellView {
    /// A walker can stand on the cell.
    pub open spec fn walkable(self) -> bool {
        !self.terrain.spec_blocks_walk()
    }

    pub open spec fn border(self) -> bool {
        self.vault_kind == Some(VaultKind::Border)
    }

    pub open spec fn interior(self) -> bool {
        self.vault_kind == Some(VaultKind::Interior)
    }

    /// The cell only reserves space: it has no terrain and can be dug.
    pub open spec fn bumper(self) -> bool {
        self.terrain == Terrain::Empty && self.can_dig
    }

    /// A fresh diggable cell of terrain `t` outside any room.
    pub open spec fn of_terrain(t: Terrain) -> CellView {
        CellView { terrain: t, spawns: Seq::empty(), can_dig: true, vault_kind: None }
    }

    /// The cell with its terrain replaced by a door.
    pub open spec fn as_door(self) -> CellView {
        CellView { terrain: Terrain::Door, ..self }
    }
}

/// A cell of a level under construction.
#[derive(Clone, Debug)]
pub struct MapCell {
    pub terrain: Terrain,
    pub spawns: Vec<EntitySpawn>,
    pub can_dig: bool,
    pub vault_kind: Option<VaultKind>,
}

impl View for MapCell {
    type V = CellView;

    open spec fn view(&self) -> CellView {
        CellView {
            terrain: self.terrain,
            spawns: self.spawns@,
            can_dig: self.can_dig,
            vault_kind: self.vault_kind,
        }
    }
}

impl Default for MapCell {
    fn default() -> (c: MapCell)
        ensures
            c@ == CellView::of_terrain(Terrain::Empty),
    {
        MapCell { terrain: Terrain::Empty, spawns: Vec::new(), can_dig: true, vault_kind: None }
    }
}

impl MapCell {
    /// A diggable cell of terrain `t` outside any room, with no spawns.
    pub fn new_terrain(t: Terrain) -> (c: MapCell)
        ensures
            c@ == CellView::of_terrain(t),
    {
        MapCell { terrain: t, spawns: Vec::new(), can_dig: true, vault_kind: None }
    }

    /// A cell that only reserves space around a room.
    pub fn new_bumper() -> (c: MapCell)
        ensures
            c@ == CellView::of_terrain(Terrain::Empty),
            c@.bumper(),
    {
        MapCell { terrain: Terrain::Empty, spawns: Vec::new(), can_dig: true, vault_kind: None }
    }

    pub fn is_walkable(&self) -> (b: bool)
        ensures
            b == self@.walkable(),
    {
        !self.terrain.blocks_walk()
    }

    pub fn is_border(&self) -> (b: bool)
        ensures
            b == self@.border(),
    {
        match self.vault_kind {
            Some(VaultKind::Border) => true,
            _ => false,
        }
    }

    pub fn is_interior(&self) -> (b: bool)
        ensures
            b == self@.interior(),
    {
        match self.vault_kind {
            Some(VaultKind::Interior) => true,
            _ => false,
        }
    }

    pub fn is_bumper(&self) -> (b: bool)
        ensures
            b == self@.bumper(),
    {
        self.terrain == Terrain::Empty && self.can_dig
    }

    /// The same cell with a door for terrain.
    pub fn to_door(self) -> (c: MapCell)
        ensures
            c@ == self@.as_door(),
    {
        let mut c = self;
        c.terrain = Terrain::Door;
        c
    }

    /// The same cell, never to be dug.
    pub fn undiggable(self) -> (c: MapCell)
        ensures
            c@ == (CellView { can_dig: false, ..self@ }),
    {
        let mut c = self;
        c.can_dig = false;
        c
    }

    /// The same cell as part of a room's wall shell.
    pub fn border(self) -> (c: MapCell)
        ensures
            c@ == (CellView { vault_kind: Some(VaultKind::Border), ..self@ }),
    {
        let mut c = self;
        c.vault_kind = Some(VaultKind::Border);
        c
    }

    /// The same cell as part of a room's protected floor.
    pub fn interior(self) -> (c: MapCell)
        ensures
            c@ == (CellView { vault_kind: Some(VaultKind::Interior), ..self@ }),
    {
        let mut c = self;
        c.vault_kind = Some(VaultKind::Interior);
        c
    }

    /// A copy of the cell.
    pub fn duplicate(&self) -> (c: MapCell)
        ensures
            c@ == self@,
    {
        let mut spawns: Vec<EntitySpawn> = Vec::new();
        let mut i: usize = 0;
        while i < self.spawns.len()
            invariant
                i <= self.spawns.len(),
                spawns@ == self.spawns@.take(i as int),
            decreases self.spawns.len() - i,
        {
            spawns.push(self.spawns[i]);
            i += 1;
            assert(spawns@ =~= self.spawns@.take(i as int));
        }
        assert(self.spawns@.take(i as int) =~= self.spawns@);
        MapCell {
            terrain: self.terrain,
            spawns,
            can_dig: self.can_dig,
            vault_kind: self.vault_kind,
        }
    }
}

} // verus!
