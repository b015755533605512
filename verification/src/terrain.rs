//! Terrain tags.

use vstd::prelude::*;

verus! {

/// What a cell is made of.
#[derive(Clone, Copy, Debug, PartialEq, Eq, Hash, Structural)]
pub enum Terrain {
    /// Nothing: space that is reserved but holds no terrain.
    Empty,
    /// A staircase or other passage to another place.
    Gate,
    Ground,
    Grass,
    Water,
    Tree,
    Wall,
    Rock,
    Door,
    Pillar,
    /// The way into a level.
    Entrance,
    /// The way out of a level.
    Exit,
}

/// Colour of opaque black, as `0xRRGGBBAA`.
pub const COLOR_EMPTY: u32 = 0x000000ff;
pub const COLOR_GATE: u32 = 0xff00ffff;
pub const COLOR_GROUND: u32 = 0x808080ff;
pub const COLOR_GRASS: u32 = 0x00ff00ff;
pub const COLOR_WATER: u32 = 0x0000ffff;
pub const COLOR_TREE: u32 = 0x008000ff;
pub const COLOR_WALL: u32 = 0xffffffff;
pub const COLOR_ROCK: u32 = 0x804000ff;
pub const COLOR_DOOR: u32 = 0xffff00ff;
pub const COLOR_PILLAR: u32 = 0xc0c0c0ff;
pub const COLOR_ENTRANCE: u32 = 0x00ffffff;
pub const COLOR_EXIT: u32 = 0xff0000ff;

impl Terrain {
    /// Whether the terrain stops a walker.
    pub open spec fn spec_blocks_walk(self) -> bool {
        match self {
            Terrain::Empty => true,
            Terrain::Water => true,
            Terrain::Tree => true,
            Terrain::Wall => true,
            Terrain::Rock => true,
            Terrain::Pillar => true,
            _ => false,
        }
    }

    /// Whether the terrain is open floor: it lets a walker through and is
    /// no door.
    pub open spec fn spec_is_open(self) -> bool {
        !self.spec_blocks_walk() && self != Terrain::Door
    }

    /// The terrain that a bitmap pixel of colour `c` (`0xRRGGBBAA`) stands
    /// for, if any.
    pub open spec fn of_color(c: u32) -> Option<Terrain> {
        if c == COLOR_EMPTY {
            Some(Terrain::Empty)
        } else if c == COLOR_GATE {
            Some(Terrain::Gate)
        } else if c == COLOR_GROUND {
            Some(Terrain::Ground)
        } else if c == COLOR_GRASS {
            Some(Terrain::Grass)
        } else if c == COLOR_WATER {
            Some(Terrain::Water)
        } else if c == COLOR_TREE {
            Some(Terrain::Tree)
        } else if c == COLOR_WALL {
            Some(Terrain::Wall)
        } else if c == COLOR_ROCK {
            Some(Terrain::Rock)
        } else if c == COLOR_DOOR {
            Some(Terrain::Door)
        } else if c == COLOR_PILLAR {
            Some(Terrain::Pillar)
        } else if c == COLOR_ENTRANCE {
            Some(Terrain::Entrance)
        } else if c == COLOR_EXIT {
            Some(Terrain::Exit)
        } else {
            None
        }
    }

    /// The colour that stands for the terrain in a bitmap.
    pub open spec fn spec_color(self) -> u32 {
        match self {
            Terrain::Empty => COLOR_EMPTY,
            Terrain::Gate => COLOR_GATE,
            Terrain::Ground => COLOR_GROUND,
            Terrain::Grass => COLOR_GRASS,
            Terrain::Water => COLOR_WATER,
            Terrain::Tree => COLOR_TREE,
            Terrain::Wall => COLOR_WALL,
            Terrain::Rock => COLOR_ROCK,
            Terrain::Door => COLOR_DOOR,
            Terrain::Pillar => COLOR_PILLAR,
            Terrain::Entrance => COLOR_ENTRANCE,
            Terrain::Exit => COLOR_EXIT,
        }
    }

    #[verifier::when_used_as_spec(spec_blocks_walk)]
    pub fn blocks_walk(self) -> (b: bool)
        ensures
            b == self.spec_blocks_walk(),
    {
        match self {
            Terrain::Empty => true,
            Terrain::Water => true,
            Terrain::Tree => true,
            Terrain::Wall => true,
            Terrain::Rock => true,
            Terrain::Pillar => true,
            _ => false,
        }
    }

    #[verifier::when_used_as_spec(spec_is_open)]
    pub fn is_open(self) -> (b: bool)
        ensures
            b == self.spec_is_open(),
    {
        !self.blocks_walk() && self != Terrain::Door
    }

    /// Looks a bitmap colour up in the table of terrains.
    pub fn from_color(c: u32) -> (t: Option<Terrain>)
        ensures
            t == Terrain::of_color(c),
    {
        if c == COLOR_EMPTY {
            Some(Terrain::Empty)
        } else if c == COLOR_GATE {
            Some(Terrain::Gate)
        } else if c == COLOR_GROUND {
            Some(Terrain::Ground)
        } else if c == COLOR_GRASS {
            Some(Terrain::Grass)
        } else if c == COLOR_WATER {
            Some(Terrain::Water)
        } else if c == COLOR_TREE {
            Some(Terrain::Tree)
        } else if c == COLOR_WALL {
            Some(Terrain::Wall)
        } else if c == COLOR_ROCK {
            Some(Terrain::Rock)
        } else if c == COLOR_DOOR {
            Some(Terrain::Door)
        } else if c == COLOR_PILLAR {
            Some(Terrain::Pillar)
        } else if c == COLOR_ENTRANCE {
            Some(Terrain::Entrance)
        } else if c == COLOR_EXIT {
            Some(Terrain::Exit)
        } else {
            None
        }
    }

    /// The bitmap colour of the terrain.
    #[verifier::when_used_as_spec(spec_color)]
    pub fn color(self) -> (c: u32)
        ensures
            c == self.spec_color(),
    {
        match self {
            Terrain::Empty => COLOR_EMPTY,
            Terrain::Gate => COLOR_GATE,
            Terrain::Ground => COLOR_GROUND,
            Terrain::Grass => COLOR_GRASS,
            Terrain::Water => COLOR_WATER,
            Terrain::Tree => COLOR_TREE,
            Terrain::Wall => COLOR_WALL,
            Terrain::Rock => COLOR_ROCK,
            Terrain::Door => COLOR_DOOR,
            Terrain::Pillar => COLOR_PILLAR,
            Terrain::Entrance => COLOR_ENTRANCE,
            Terrain::Exit => COLOR_EXIT,
        }
    }
}

/// Every terrain is found again from its own colour.
pub proof fn lemma_color_round_trip(t: Terrain)
    ensures
        Terrain::of_color(t.spec_color()) == Some(t),
{
}

} // verus!
