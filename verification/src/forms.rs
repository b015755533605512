//! What may turn up where: the things and the creatures of each depth.

use vstd::prelude::*;
use rand::XorShiftRng;
use crate::cell::EntitySpawn;
use crate::rng::gen_index;

verus! {

impl EntitySpawn {
    /// Whether this is a thing to pick up.
    pub open spec fn is_item(self) -> bool {
        match self {
            EntitySpawn::Sword => true,
            EntitySpawn::Helmet => true,
            EntitySpawn::Armor => true,
            EntitySpawn::Wand1 => true,
            EntitySpawn::Wand2 => true,
            EntitySpawn::Scroll1 => true,
            _ => false,
        }
    }

    /// Whether this is a creature of the dungeon.
    pub open spec fn is_mob(self) -> bool {
        !self.is_item() && self != EntitySpawn::Player
    }

    /// The first depth at which this turns up.
    pub open spec fn min_depth(self) -> int {
        match self {
            EntitySpawn::Player => 0,
            EntitySpawn::Snake => 1,
            EntitySpawn::Dreg => 1,
            EntitySpawn::Bug => 2,
            EntitySpawn::Octopus => 3,
            EntitySpawn::Ogre => 4,
            EntitySpawn::Ooze => 5,
            EntitySpawn::Wraith => 6,
            EntitySpawn::Efreet => 8,
            EntitySpawn::Serpent => 9,
            EntitySpawn::Sword => 1,
            EntitySpawn::Helmet => 1,
            EntitySpawn::Scroll1 => 1,
            EntitySpawn::Armor => 2,
            EntitySpawn::Wand1 => 3,
            EntitySpawn::Wand2 => 5,
        }
    }

    /// Whether this turns up at `depth`.
    pub open spec fn at_depth(self, depth: int) -> bool {
        self.min_depth() <= depth
    }
}

/// Everything that there is, in the order in which tables list it.
pub fn all_forms() -> (out: Vec<EntitySpawn>)
    ensures
        out@ == seq![
            EntitySpawn::Snake,
            EntitySpawn::Dreg,
            EntitySpawn::Bug,
            EntitySpawn::Octopus,
            EntitySpawn::Ogre,
            EntitySpawn::Ooze,
            EntitySpawn::Wraith,
            EntitySpawn::Efreet,
            EntitySpawn::Serpent,
            EntitySpawn::Sword,
            EntitySpawn::Helmet,
            EntitySpawn::Scroll1,
            EntitySpawn::Armor,
            EntitySpawn::Wand1,
            EntitySpawn::Wand2,
        ],
{
    let out = vec![
        EntitySpawn::Snake,
        EntitySpawn::Dreg,
        EntitySpawn::Bug,
        EntitySpawn::Octopus,
        EntitySpawn::Ogre,
        EntitySpawn::Ooze,
        EntitySpawn::Wraith,
        EntitySpawn::Efreet,
        EntitySpawn::Serpent,
        EntitySpawn::Sword,
        EntitySpawn::Helmet,
        EntitySpawn::Scroll1,
        EntitySpawn::Armor,
        EntitySpawn::Wand1,
        EntitySpawn::Wand2,
    ];
    assert(out@ =~= seq![
        EntitySpawn::Snake,
        EntitySpawn::Dreg,
        EntitySpawn::Bug,
        EntitySpawn::Octopus,
        EntitySpawn::Ogre,
        EntitySpawn::Ooze,
        EntitySpawn::Wraith,
        EntitySpawn::Efreet,
        EntitySpawn::Serpent,
        EntitySpawn::Sword,
        EntitySpawn::Helmet,
        EntitySpawn::Scroll1,
        EntitySpawn::Armor,
        EntitySpawn::Wand1,
        EntitySpawn::Wand2,
    ]);
    out
}

fn is_item(e: EntitySpawn) -> (b: bool)
    ensures
        b == e.is_item(),
{
    match e {
        EntitySpawn::Sword => true,
        EntitySpawn::Helmet => true,
        EntitySpawn::Armor => true,
        EntitySpawn::Wand1 => true,
        EntitySpawn::Wand2 => true,
        EntitySpawn::Scroll1 => true,
        _ => false,
    }
}

fn min_depth(e: EntitySpawn) -> (d: i16)
    ensures
        d == e.min_depth(),
{
    match e {
        EntitySpawn::Player => 0,
        EntitySpawn::Snake => 1,
        EntitySpawn::Dreg => 1,
        EntitySpawn::Bug => 2,
        EntitySpawn::Octopus => 3,
        EntitySpawn::Ogre => 4,
        EntitySpawn::Ooze => 5,
        EntitySpawn::Wraith => 6,
        EntitySpawn::Efreet => 8,
        EntitySpawn::Serpent => 9,
        EntitySpawn::Sword => 1,
        EntitySpawn::Helmet => 1,
        EntitySpawn::Scroll1 => 1,
        EntitySpawn::Armor => 2,
        EntitySpawn::Wand1 => 3,
        EntitySpawn::Wand2 => 5,
    }
}

/// Whether `e` belongs in the table of things, or of creatures, of `depth`.
pub open spec fn listed(e: EntitySpawn, items: bool, depth: int) -> bool {
    e.at_depth(depth) && if items {
        e.is_item()
    } else {
        e.is_mob()
    }
}

/// The things, or the creatures, that turn up at `depth`.  From the first
/// depth on neither table is empty.
pub fn spawn_table(items: bool, depth: i16) -> (out: Vec<EntitySpawn>)
    ensures
        forall|e: EntitySpawn| out@.contains(e) <==> listed(e, items, depth as int),
        depth >= 1 ==> out@.len() > 0,
{
    let all = all_forms();
    let mut out: Vec<EntitySpawn> = Vec::new();
    let mut i: usize = 0;
    while i < all.len()
        invariant
            i <= all@.len(),
            all@.len() == 15,
            forall|e: EntitySpawn|
                out@.contains(e) <==> listed(e, items, depth as int) && all@.take(i as int).contains(
                    e,
                ),
        decreases all@.len() - i,
    {
        let e = all[i];
        let ghost before = out@;
        let keep = min_depth(e) <= depth && (if items {
            is_item(e)
        } else {
            !is_item(e) && e != EntitySpawn::Player
        });
        if keep {
            out.push(e);
        }
        proof {
            let a = all@.take(i as int);
            let b = all@.take(i + 1);
            assert(b =~= a.push(e));
            assert forall|x: EntitySpawn|
                out@.contains(x) <==> listed(x, items, depth as int) && b.contains(x) by {
                if out@.contains(x) {
                    let k = choose|k: int| 0 <= k < out@.len() && out@[k] == x;
                    if k < before.len() {
                        assert(before[k] == x);
                        assert(before.contains(x));
                        let j = choose|j: int| 0 <= j < a.len() && a[j] == x;
                        assert(b[j] == x);
                    } else {
                        assert(b[i as int] == x);
                    }
                }
                if listed(x, items, depth as int) && b.contains(x) {
                    let j = choose|j: int| 0 <= j < b.len() && b[j] == x;
                    if j < i {
                        assert(a[j] == x);
                        assert(before.contains(x));
                        let k = choose|k: int| 0 <= k < before.len() && before[k] == x;
                        assert(out@[k] == x);
                    } else {
                        assert(out@[before.len() as int] == x);
                    }
                }
            }
        }
        i += 1;
    }
    proof {
        assert(all@.take(i as int) =~= all@);
        assert forall|e: EntitySpawn| listed(e, items, depth as int) implies all@.contains(e) by {
            assert(all@[0] == EntitySpawn::Snake);
            assert(all@[1] == EntitySpawn::Dreg);
            assert(all@[2] == EntitySpawn::Bug);
            assert(all@[3] == EntitySpawn::Octopus);
            assert(all@[4] == EntitySpawn::Ogre);
            assert(all@[5] == EntitySpawn::Ooze);
            assert(all@[6] == EntitySpawn::Wraith);
            assert(all@[7] == EntitySpawn::Efreet);
            assert(all@[8] == EntitySpawn::Serpent);
            assert(all@[9] == EntitySpawn::Sword);
            assert(all@[10] == EntitySpawn::Helmet);
            assert(all@[11] == EntitySpawn::Scroll1);
            assert(all@[12] == EntitySpawn::Armor);
            assert(all@[13] == EntitySpawn::Wand1);
            assert(all@[14] == EntitySpawn::Wand2);
        }
        if depth >= 1 {
            if items {
                assert(all@[9] == EntitySpawn::Sword);
                assert(all@.contains(EntitySpawn::Sword));
                assert(out@.contains(EntitySpawn::Sword));
            } else {
                assert(all@[0] == EntitySpawn::Snake);
                assert(all@.contains(EntitySpawn::Snake));
                assert(out@.contains(EntitySpawn::Snake));
            }
        }
    }
    out
}

/// One entry of `table`, drawn at random.
pub fn pick_form(rng: &mut XorShiftRng, table: &Vec<EntitySpawn>) -> (e: EntitySpawn)
    requires
        table@.len() > 0,
    ensures
        table@.contains(e),
{
    let i = gen_index(rng, table.len());
    table[i]
}

} // verus!
