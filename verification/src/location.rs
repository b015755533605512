//! Places of the world, and tables and sets of them.
//!
//! A place has two coordinates on the hex plane and a depth below the
//! surface.  Sets of places keep their members in one fixed order: by `x`,
//! then `y`, then `z`.

use vstd::prelude::*;
use std::collections::HashMap;
use crate::geom::CellVector;

verus! {

/// A place in the world.
#[derive(Clone, Copy, Debug, PartialEq, Eq, Hash, Structural)]
pub struct Location {
    pub x: i16,
    pub y: i16,
    pub z: i16,
}

impl Location {
    pub fn new(x: i16, y: i16, z: i16) -> (loc: Location)
        ensures
            loc == (Location { x, y, z }),
    {
        Location { x, y, z }
    }

    /// The place `(dx, dy)` away on the same depth.  Coordinates wrap
    /// around at the ends of their range.
    pub open spec fn moved(self, dx: int, dy: int) -> Location {
        Location { x: (self.x + dx) as i16, y: (self.y + dy) as i16, z: self.z }
    }

    /// The place `v` away on the same depth.
    pub fn shifted(self, v: CellVector) -> (loc: Location)
        ensures
            loc == self.moved(v.x as int, v.y as int),
    {
        let x: i64 = self.x as i64 + v.x as i64;
        let y: i64 = self.y as i64 + v.y as i64;
        Location { x: #[verifier::truncate] (x as i16), y: #[verifier::truncate] (y as i16), z: self.z }
    }

    /// The place `(dx, dy)` away on the same depth, or `None` where that
    /// is beyond the range of coordinates.
    pub fn offset(self, dx: i64, dy: i64) -> (r: Option<Location>)
        ensures
            match r {
                Some(loc) => loc.x == self.x + dx && loc.y == self.y + dy && loc.z == self.z,
                None => !(i16::MIN <= self.x + dx <= i16::MAX && i16::MIN <= self.y + dy
                    <= i16::MAX),
            },
    {
        if dx < -0x1_0000 || dx > 0x1_0000 || dy < -0x1_0000 || dy > 0x1_0000 {
            return None;
        }
        let x: i64 = self.x as i64 + dx;
        let y: i64 = self.y as i64 + dy;
        if x < i16::MIN as i64 || x > i16::MAX as i64 || y < i16::MIN as i64 || y > i16::MAX as i64 {
            None
        } else {
            Some(Location { x: x as i16, y: y as i16, z: self.z })
        }
    }

    /// Where `other` lies as seen from `self`, on the plane.
    pub fn v2_to(self, other: Location) -> (v: CellVector)
        ensures
            v@ == (other.x - self.x, other.y - self.y),
    {
        CellVector { x: other.x as i32 - self.x as i32, y: other.y as i32 - self.y as i32 }
    }
}

/// Something that lays a flat chart over the world: each point of the
/// chart stands for a place.
pub trait Chart {
    /// The place that the point `v` of the chart stands for.
    spec fn place_of(&self, v: crate::geom::Pt) -> Location;

    /// The place that the point `v` of the chart stands for.
    fn at(&self, v: CellVector) -> (loc: Location)
        ensures
            loc == self.place_of(v@),
    ;
}

/// A place is a chart of what lies around it on its depth.
impl Chart for Location {
    open spec fn place_of(&self, v: crate::geom::Pt) -> Location {
        self.moved(v.0, v.1)
    }

    fn at(&self, v: CellVector) -> (loc: Location) {
        self.shifted(v)
    }
}

/// A position on an endless flat chart, which may stand for different
/// places of the world.
#[derive(Clone, Copy, Debug, PartialEq, Eq, Hash, Structural)]
pub struct ChartPos {
    pub x: i32,
    pub y: i32,
}

impl ChartPos {
    pub fn new(x: i32, y: i32) -> (pos: ChartPos)
        ensures
            pos == (ChartPos { x, y }),
    {
        ChartPos { x, y }
    }

    /// The chart position of a place, its depth forgotten.
    pub fn from_location(loc: Location) -> (pos: ChartPos)
        ensures
            pos == (ChartPos { x: loc.x as i32, y: loc.y as i32 }),
    {
        ChartPos { x: loc.x as i32, y: loc.y as i32 }
    }

    /// The place on the surface under the chart position.  Coordinates
    /// wrap around at the ends of a place's range.
    pub fn to_location(self) -> (loc: Location)
        ensures
            loc == (Location { x: self.x as i16, y: self.y as i16, z: 0 }),
    {
        Location { x: #[verifier::truncate] (self.x as i16), y: #[verifier::truncate] (self.y as i16), z: 0 }
    }

    /// The position `v` away.
    pub fn shifted(self, v: CellVector) -> (r: Option<ChartPos>)
        ensures
            match r {
                Some(pos) => pos.x == self.x + v.x && pos.y == self.y + v.y,
                None => !crate::geom::in_range((self.x + v.x, self.y + v.y)),
            },
    {
        match (CellVector { x: self.x, y: self.y }).plus(v) {
            Some(p) => Some(ChartPos { x: p.x, y: p.y }),
            None => None,
        }
    }
}

/// The key under which a place is stored: its coordinates moved into the
/// non-negative range and laid side by side, so that keys order as places
/// do.
pub open spec fn loc_key(loc: Location) -> int {
    ((loc.x + 0x8000) * 0x1_0000 + (loc.y + 0x8000)) * 0x1_0000 + (loc.z + 0x8000)
}

/// The place that is stored under key `k`.
pub open spec fn key_loc(k: int) -> Location {
    Location {
        x: (k / 0x1_0000_0000 - 0x8000) as i16,
        y: ((k / 0x1_0000) % 0x1_0000 - 0x8000) as i16,
        z: (k % 0x1_0000 - 0x8000) as i16,
    }
}

/// The fixed order of places: by `x`, then `y`, then `z`.
pub open spec fn loc_lt(a: Location, b: Location) -> bool {
    a.x < b.x || (a.x == b.x && (a.y < b.y || (a.y == b.y && a.z < b.z)))
}

/// Keys and places correspond one to one, and keys order as places do.
pub proof fn lemma_loc_key(a: Location, b: Location)
    ensures
        0 <= loc_key(a) < 0x1_0000_0000_0000,
        key_loc(loc_key(a)) == a,
        loc_key(a) == loc_key(b) <==> a == b,
        loc_key(a) < loc_key(b) <==> loc_lt(a, b),
{
}

pub(crate) fn encode_loc(loc: Location) -> (k: u64)
    ensures
        k == loc_key(loc),
{
    let x: u64 = (loc.x as i64 + 0x8000) as u64;
    let y: u64 = (loc.y as i64 + 0x8000) as u64;
    let z: u64 = (loc.z as i64 + 0x8000) as u64;
    (x * 0x1_0000 + y) * 0x1_0000 + z
}

/// Whether `s` lists its places in strictly rising order, none twice.
pub open spec fn rising(s: Seq<Location>) -> bool {
    forall|i: int, j: int| 0 <= i < j < s.len() ==> loc_lt(#[trigger] s[i], #[trigger] s[j])
}

/// A rising list is fixed by the set of places it lists.
pub proof fn lemma_rising_unique(a: Seq<Location>, b: Seq<Location>)
    requires
        rising(a),
        rising(b),
        a.to_set() == b.to_set(),
    ensures
        a == b,
    decreases a.len(),
{
    if a.len() == 0 {
        if b.len() > 0 {
            assert(b.to_set().contains(b[0]));
            assert(a.to_set().contains(b[0]));
        }
        assert(a =~= b);
    } else {
        assert(a.to_set().contains(a[0]));
        assert(b.to_set().contains(a[0]));
        assert(b.len() > 0);
        assert(b.to_set().contains(b[0]));
        assert(a.to_set().contains(b[0]));
        let i = choose|i: int| 0 <= i < a.len() && a[i] == b[0];
        let j = choose|j: int| 0 <= j < b.len() && b[j] == a[0];
        if i > 0 {
            assert(loc_lt(a[0], a[i]));
            if j > 0 {
                assert(loc_lt(b[0], b[j]));
            }
        }
        assert(a[0] == b[0]);
        let a1 = a.drop_first();
        let b1 = b.drop_first();
        assert(rising(a1)) by {
            assert forall|i: int, j: int| 0 <= i < j < a1.len() implies loc_lt(
                #[trigger] a1[i],
                #[trigger] a1[j],
            ) by {
                assert(a1[i] == a[i + 1] && a1[j] == a[j + 1]);
            }
        }
        assert(rising(b1)) by {
            assert forall|i: int, j: int| 0 <= i < j < b1.len() implies loc_lt(
                #[trigger] b1[i],
                #[trigger] b1[j],
            ) by {
                assert(b1[i] == b[i + 1] && b1[j] == b[j + 1]);
            }
        }
        assert(a1.to_set() =~= b1.to_set()) by {
            assert forall|p: Location| a1.to_set().contains(p) implies b1.to_set().contains(p) by {
                let i = choose|i: int| 0 <= i < a1.len() && a1[i] == p;
                assert(a1[i] == a[i + 1]);
                assert(loc_lt(a[0], a[i + 1]));
                assert(a.to_set().contains(p));
                assert(b.to_set().contains(p));
                let j = choose|j: int| 0 <= j < b.len() && b[j] == p;
                assert(j != 0);
                assert(b1[j - 1] == b[j]);
            }
            assert forall|p: Location| b1.to_set().contains(p) implies a1.to_set().contains(p) by {
                let i = choose|i: int| 0 <= i < b1.len() && b1[i] == p;
                assert(b1[i] == b[i + 1]);
                assert(loc_lt(b[0], b[i + 1]));
                assert(b.to_set().contains(p));
                assert(a.to_set().contains(p));
                let j = choose|j: int| 0 <= j < a.len() && a[j] == p;
                assert(j != 0);
                assert(a1[j - 1] == a[j]);
            }
        }
        lemma_rising_unique(a1, b1);
        assert(a =~= b) by {
            assert(a1.len() == a.len() - 1);
            assert(b1.len() == b.len() - 1);
            assert(a1.len() == b1.len());
            assert forall|k: int| 0 <= k < a.len() implies a[k] == b[k] by {
                if k > 0 {
                    assert(a1[k - 1] == a[k]);
                    assert(b1[k - 1] == b[k]);
                }
            }
        }
    }
}

/// Whether `a` comes before `b` in the fixed order of places.
pub fn loc_precedes(a: Location, b: Location) -> (r: bool)
    ensures
        r == loc_lt(a, b),
{
    a.x < b.x || (a.x == b.x && (a.y < b.y || (a.y == b.y && a.z < b.z)))
}

fn copy_locs(list: &Vec<Location>) -> (out: Vec<Location>)
    ensures
        out@ == list@,
{
    let mut out: Vec<Location> = Vec::new();
    let mut i: usize = 0;
    while i < list.len()
        invariant
            i <= list.len(),
            out@ == list@.take(i as int),
        decreases list.len() - i,
    {
        out.push(list[i]);
        i += 1;
        assert(out@ =~= list@.take(i as int));
    }
    assert(list@.take(i as int) =~= list@);
    out
}

/// A set of places that hands its members out in the fixed order.
#[derive(Debug)]
pub struct LocationSet {
    members: Vec<Location>,
}

impl View for LocationSet {
    type V = Set<Location>;

    closed spec fn view(&self) -> Set<Location> {
        self.members@.to_set()
    }
}

impl LocationSet {
    #[verifier::type_invariant]
    spec fn wf(self) -> bool {
        rising(self.members@)
    }

    /// The empty set.
    pub fn new() -> (s: LocationSet)
        ensures
            s@ == Set::<Location>::empty(),
    {
        let s = LocationSet { members: Vec::new() };
        assert(s@ =~= Set::<Location>::empty());
        s
    }

    /// Index of the first member that does not come before `loc`.
    fn slot(&self, loc: Location) -> (i: usize)
        ensures
            i <= self.members@.len(),
            forall|k: int| 0 <= k < i ==> loc_lt(#[trigger] self.members@[k], loc),
            forall|k: int| i <= k < self.members@.len() ==> !loc_lt(#[trigger] self.members@[k], loc),
    {
        proof {
            use_type_invariant(self);
        }
        let mut i: usize = 0;
        while i < self.members.len() && loc_precedes(self.members[i], loc)
            invariant
                i <= self.members@.len(),
                forall|k: int| 0 <= k < i ==> loc_lt(#[trigger] self.members@[k], loc),
            decreases self.members@.len() - i,
        {
            i += 1;
        }
        proof {
            if i < self.members@.len() {
                assert forall|k: int| i <= k < self.members@.len() implies !loc_lt(
                    #[trigger] self.members@[k],
                    loc,
                ) by {
                    if k > i {
                        assert(loc_lt(self.members@[i as int], self.members@[k]));
                    }
                }
            }
        }
        i
    }

    /// Whether `loc` is a member.
    pub fn contains(&self, loc: Location) -> (b: bool)
        ensures
            b == self@.contains(loc),
    {
        let i = self.slot(loc);
        if i < self.members.len() && self.members[i] == loc {
            true
        } else {
            proof {
                if self@.contains(loc) {
                    let k = choose|k: int| 0 <= k < self.members@.len() && self.members@[k] == loc;
                    assert(!loc_lt(self.members@[k], loc));
                    assert(k >= i);
                    if k > i {
                        use_type_invariant(self);
                        assert(loc_lt(self.members@[i as int], self.members@[k]));
                        assert(!loc_lt(self.members@[i as int], loc));
                    }
                }
            }
            false
        }
    }

    /// Makes `loc` a member.
    pub fn insert(&mut self, loc: Location)
        ensures
            final(self)@ == old(self)@.insert(loc),
    {
        proof {
            use_type_invariant(&*self);
        }
        let i = self.slot(loc);
        if i < self.members.len() && self.members[i] == loc {
            assert(self@.contains(loc));
            assert(self@ =~= old(self)@.insert(loc));
            return ;
        }
        let ghost before = self.members@;
        proof {
            assert forall|k: int| i <= k < before.len() implies loc_lt(loc, #[trigger] before[k]) by {
                assert(!loc_lt(before[k], loc));
                if k > i {
                    assert(loc_lt(before[i as int], before[k]));
                }
            }
        }
        let mut grown = copy_locs(&self.members);
        grown.insert(i, loc);
        proof {
            let after = grown@;
            assert forall|a: int, b: int| 0 <= a < b < after.len() implies loc_lt(
                #[trigger] after[a],
                #[trigger] after[b],
            ) by {
                if a < i && b < i {
                    assert(after[a] == before[a] && after[b] == before[b]);
                } else if a < i && b == i {
                    assert(after[a] == before[a]);
                } else if a < i && b > i {
                    assert(after[a] == before[a] && after[b] == before[b - 1]);
                } else if a == i {
                    assert(after[b] == before[b - 1]);
                } else {
                    assert(after[a] == before[a - 1] && after[b] == before[b - 1]);
                }
            }
            assert(after.to_set() =~= before.to_set().insert(loc)) by {
                assert forall|p: Location| after.to_set().contains(p) implies before.to_set().insert(
                    loc,
                ).contains(p) by {
                    let k = choose|k: int| 0 <= k < after.len() && after[k] == p;
                    if k < i {
                        assert(after[k] == before[k]);
                    } else if k > i {
                        assert(after[k] == before[k - 1]);
                    }
                }
                assert forall|p: Location| before.to_set().insert(loc).contains(p) implies after.to_set().contains(
                    p,
                ) by {
                    if p == loc {
                        assert(after[i as int] == p);
                    } else {
                        let k = choose|k: int| 0 <= k < before.len() && before[k] == p;
                        if k < i {
                            assert(after[k] == before[k]);
                        } else {
                            assert(after[k + 1] == before[k]);
                        }
                    }
                }
            }
        }
        self.members = grown;
    }

    /// Takes `loc` out of the set.
    pub fn remove(&mut self, loc: Location)
        ensures
            final(self)@ == old(self)@.remove(loc),
    {
        proof {
            use_type_invariant(&*self);
        }
        let i = self.slot(loc);
        let ghost before = self.members@;
        if i < self.members.len() && self.members[i] == loc {
            let mut shrunk = copy_locs(&self.members);
            shrunk.remove(i);
            proof {
                let after = shrunk@;
                assert forall|a: int, b: int| 0 <= a < b < after.len() implies loc_lt(
                    #[trigger] after[a],
                    #[trigger] after[b],
                ) by {
                    let a0 = if a < i { a } else { a + 1 };
                    let b0 = if b < i { b } else { b + 1 };
                    assert(after[a] == before[a0] && after[b] == before[b0]);
                }
                assert(after.to_set() =~= before.to_set().remove(loc)) by {
                    assert forall|p: Location| after.to_set().contains(p) implies before.to_set().remove(
                        loc,
                    ).contains(p) by {
                        let k = choose|k: int| 0 <= k < after.len() && after[k] == p;
                        let k0 = if k < i { k } else { k + 1 };
                        assert(after[k] == before[k0]);
                        if k0 < i {
                            assert(loc_lt(before[k0], before[i as int]));
                        } else {
                            assert(loc_lt(before[i as int], before[k0]));
                        }
                    }
                    assert forall|p: Location| before.to_set().remove(loc).contains(p) implies after.to_set().contains(
                        p,
                    ) by {
                        let k = choose|k: int| 0 <= k < before.len() && before[k] == p;
                        if k < i {
                            assert(after[k] == before[k]);
                        } else {
                            assert(after[k - 1] == before[k]);
                        }
                    }
                }
            }
            self.members = shrunk;
        } else {
            proof {
                if self@.contains(loc) {
                    let k = choose|k: int| 0 <= k < before.len() && before[k] == loc;
                    assert(!loc_lt(before[k], loc));
                    if k > i {
                        assert(loc_lt(before[i as int], before[k]));
                    }
                }
                assert(self@ =~= old(self)@.remove(loc));
            }
        }
    }

    /// Number of members.
    pub fn len(&self) -> (n: usize)
        ensures
            n == self@.len(),
            self@.finite(),
    {
        proof {
            use_type_invariant(self);
            assert(self.members@.no_duplicates()) by {
                assert forall|i: int, j: int|
                    0 <= i < self.members@.len() && 0 <= j < self.members@.len() && i != j implies self.members@[i]
                    != self.members@[j] by {
                    if i < j {
                        assert(loc_lt(self.members@[i], self.members@[j]));
                    } else {
                        assert(loc_lt(self.members@[j], self.members@[i]));
                    }
                }
            }
            self.members@.unique_seq_to_set();
        }
        self.members.len()
    }

    /// A copy of the set.
    pub fn duplicate(&self) -> (s: LocationSet)
        ensures
            s@ == self@,
    {
        proof {
            use_type_invariant(self);
        }
        LocationSet { members: copy_locs(&self.members) }
    }

    /// The members in the fixed order.
    pub fn to_vec(&self) -> (out: Vec<Location>)
        ensures
            rising(out@),
            out@.to_set() == self@,
    {
        proof {
            use_type_invariant(self);
        }
        copy_locs(&self.members)
    }
}

/// A table from places to values.
#[derive(Clone, Debug)]
pub struct LocTable<V> {
    entries: HashMap<u64, V>,
}

impl<V> View for LocTable<V> {
    type V = Map<Location, V>;

    closed spec fn view(&self) -> Map<Location, V> {
        Map::new(
            |loc: Location| self.entries@.contains_key(loc_key(loc) as u64),
            |loc: Location| self.entries@[loc_key(loc) as u64],
        )
    }
}

impl<V> LocTable<V> {
    /// The empty table.
    pub fn new() -> (t: LocTable<V>)
        ensures
            t@ == Map::<Location, V>::empty(),
    {
        let t = LocTable { entries: HashMap::new() };
        assert(t@ =~= Map::<Location, V>::empty());
        t
    }

    /// Stores `value` for `loc`, in place of what was there.
    pub fn insert(&mut self, loc: Location, value: V)
        ensures
            final(self)@ == old(self)@.insert(loc, value),
    {
        broadcast use vstd::std_specs::hash::group_hash_axioms;

        let k = encode_loc(loc);
        self.entries.insert(k, value);
        assert(self@ =~= old(self)@.insert(loc, value)) by {
            assert forall|other: Location| other != loc implies loc_key(other) as u64 != k by {
                lemma_loc_key(other, loc);
            }
            lemma_loc_key(loc, loc);
        }
    }

    /// What is stored for `loc`, if anything.
    pub fn get(&self, loc: Location) -> (r: Option<&V>)
        ensures
            match r {
                Some(v) => self@.contains_key(loc) && *v == self@[loc],
                None => !self@.contains_key(loc),
            },
    {
        broadcast use vstd::std_specs::hash::group_hash_axioms;

        let k = encode_loc(loc);
        proof {
            lemma_loc_key(loc, loc);
        }
        self.entries.get(&k)
    }

    /// Whether anything is stored for `loc`.
    pub fn contains(&self, loc: Location) -> (b: bool)
        ensures
            b == self@.contains_key(loc),
    {
        self.get(loc).is_some()
    }

    /// Forgets what is stored for `loc`.
    pub fn remove(&mut self, loc: Location)
        ensures
            final(self)@ == old(self)@.remove(loc),
    {
        broadcast use vstd::std_specs::hash::group_hash_axioms;

        let k = encode_loc(loc);
        self.entries.remove(&k);
        assert(self@ =~= old(self)@.remove(loc)) by {
            assert forall|other: Location| other != loc implies loc_key(other) as u64 != k by {
                lemma_loc_key(other, loc);
            }
            lemma_loc_key(loc, loc);
        }
    }
}

} // verus!
