//! What entities of the world are made of.

use vstd::prelude::*;
use crate::location::{Location, LocationSet};

verus! {

/// How an entity is shown.  What is made of it is up to the front end.
#[derive(Clone, Copy, Debug, PartialEq, Eq, Hash, Structural)]
pub enum Icon {
    Player,
    Snake,
    Dreg,
    Ogre,
    Wraith,
    Octopus,
    Bug,
    Ooze,
    Efreet,
    Serpent,
    Sword,
    Helmet,
    Armor,
    Wand1,
    Wand2,
    Scroll1,
}

/// Name and looks of an entity.
#[derive(Clone, Debug)]
pub struct Desc {
    pub name: String,
    pub icon: Icon,
}

impl Desc {
    pub fn new(name: &str, icon: Icon) -> (d: Desc)
        ensures
            d.name@ == name@,
            d.icon == icon,
    {
        Desc { name: name.to_owned(), icon }
    }
}

/// Where an entity is in its move from one place to the next.
#[derive(Clone, Copy, Debug)]
pub struct Anim {
    pub tween_from: Location,
    pub tween_current: u32,
    pub tween_max: u32,
}

impl Default for Anim {
    fn default() -> (a: Anim)
        ensures
            a.tween_from == (Location { x: 0, y: 0, z: 0 }),
            a.tween_current == 0,
            a.tween_max == 0,
    {
        Anim { tween_from: Location { x: 0, y: 0, z: 0 }, tween_current: 0, tween_max: 0 }
    }
}

impl Anim {
    /// One frame of the move is over: the count of frames left goes down
    /// by one, and stays at zero.
    pub fn tick(&mut self)
        ensures
            final(self).tween_current == if old(self).tween_current > 0 {
                old(self).tween_current - 1
            } else {
                0
            },
            final(self).tween_from == old(self).tween_from,
            final(self).tween_max == old(self).tween_max,
    {
        if self.tween_current > 0 {
            self.tween_current -= 1;
        }
    }
}

/// What an entity knows of a place.
#[derive(Clone, Copy, Debug, PartialEq, Eq, Structural)]
pub enum FovStatus {
    /// The place is in view.
    Seen,
    /// The place has been in view.
    Remembered,
}

/// The places that an entity sees, and those that it has seen.
#[derive(Debug)]
pub struct MapMemory {
    pub seen: LocationSet,
    pub remembered: LocationSet,
}

impl MapMemory {
    /// A memory of nothing.
    pub fn new() -> (m: MapMemory)
        ensures
            m.seen@ == Set::<Location>::empty(),
            m.remembered@ == Set::<Location>::empty(),
    {
        MapMemory { seen: LocationSet::new(), remembered: LocationSet::new() }
    }

    /// What is known of `loc`.  A place in view counts as seen also where
    /// it is remembered.
    pub fn status(&self, loc: Location) -> (s: Option<FovStatus>)
        ensures
            s == if self.seen@.contains(loc) {
                Some(FovStatus::Seen)
            } else if self.remembered@.contains(loc) {
                Some(FovStatus::Remembered)
            } else {
                None::<FovStatus>
            },
    {
        if self.seen.contains(loc) {
            Some(FovStatus::Seen)
        } else if self.remembered.contains(loc) {
            Some(FovStatus::Remembered)
        } else {
            None
        }
    }
}

/// How a mob cries out when it is roused.
#[derive(Clone, Copy, Debug, PartialEq, Eq, Structural)]
pub enum ShoutType {
    /// Humanoids.
    Shout,
    /// Reptiles.
    Hiss,
    /// Insects.
    Buzz,
    /// Large monsters.
    Roar,
    /// Slimes.
    Gurgle,
    Silent,
}

/// Who fights whom.
#[derive(Clone, Copy, Debug, PartialEq, Eq, Structural)]
pub enum Alignment {
    /// Attacks anything.
    Chaotic,
    /// The player's side.
    Good,
    /// The side of the dwellers.
    Evil,
}

/// Damage taken.  A fresh entity has no wounds and no armor.
#[derive(Clone, Copy, Debug)]
pub struct Health {
    /// The more wounds, the nearer to death.
    pub wounds: i32,
    /// Armor is used up before wounds are taken.
    pub armor: i32,
}

impl Health {
    pub fn new() -> (h: Health)
        ensures
            h.wounds == 0,
            h.armor == 0,
    {
        Health { wounds: 0, armor: 0 }
    }
}

/// What a thing is good for.
#[derive(Clone, Copy, Debug, PartialEq, Eq, Structural)]
pub enum ItemType {
    MeleeWeapon,
    RangedWeapon,
    Helmet,
    Armor,
    /// Used up at once, on whoever holds it.
    UntargetedUsable,
    /// Used up at once, in a direction.
    TargetedUsable,
}

/// A thing that can be picked up and carried.
#[derive(Clone, Copy, Debug)]
pub struct Item {
    pub item_type: ItemType,
    /// How many uses are left.
    pub charges: u32,
}

/// Passing states of a creature.
#[derive(Clone, Copy, Debug, PartialEq, Eq, Structural)]
pub enum Status {
    /// Acts at random.
    Confused,
    Dead,
    /// Moves a third slower.
    Slowed,
    /// Moves a third faster.
    Hasted,
    /// Has just acted.
    Delayed,
}

/// The numbers of a creature.
#[derive(Clone, Copy, Debug, PartialEq, Eq, Structural)]
pub struct Stats {
    pub power: i32,
    pub attack: i32,
    pub defense: i32,
    pub armor: i32,
    pub ranged_range: u32,
    pub ranged_power: i32,
}

/// The numbers of a creature as born, and as they stand with all that
/// bears on them.
#[derive(Clone, Copy, Debug)]
pub struct StatsComponent {
    /// The numbers of the creature itself.
    pub base: Stats,
    /// The numbers in effect.  They are worked out anew whenever something
    /// that bears on them changes.
    pub actual: Stats,
}

impl StatsComponent {
    pub fn new(base: Stats) -> (s: StatsComponent)
        ensures
            s.base == base,
            s.actual == base,
    {
        StatsComponent { base, actual: base }
    }
}

} // verus!
