//! The sparse store of cells.
//!
//! A cell that the store does not hold is undefined: it lies outside what
//! has been generated, which is not the same as holding empty terrain.
//! The store hashes; whatever lists its cells sorts them first.

use vstd::prelude::*;
use std::collections::HashMap;
use vstd::std_specs::iter::IteratorSpec;
use crate::cell::{CellView, EntitySpawn, MapCell};
use crate::geom::{in_range, pt_add, CellVector, Pt};
use crate::order::{ascending, insert_ascending, pts};

verus! {

/// The key under which the cell at `p` is stored: both coordinates moved
/// into the non-negative range and laid side by side.
pub open spec fn key_of(p: Pt) -> int {
    (p.0 + 0x8000_0000) * 0x1_0000_0000 + (p.1 + 0x8000_0000)
}

/// The point that is stored under key `k`.
pub open spec fn pt_of(k: int) -> Pt {
    (k / 0x1_0000_0000 - 0x8000_0000, k % 0x1_0000_0000 - 0x8000_0000)
}

/// Keys and points in range correspond one to one.
pub proof fn lemma_key_round_trip(p: Pt)
    requires
        in_range(p),
    ensures
        0 <= key_of(p) <= u64::MAX,
        pt_of(key_of(p)) == p,
{
}

/// Every key is the key of a point in range.
pub proof fn lemma_pt_round_trip(k: int)
    requires
        0 <= k <= u64::MAX,
    ensures
        in_range(pt_of(k)),
        key_of(pt_of(k)) == k,
{
}

fn encode(pos: CellVector) -> (k: u64)
    ensures
        k == key_of(pos@),
        pt_of(k as int) == pos@,
{
    let hi: u64 = (pos.x as i64 + 0x8000_0000) as u64;
    let lo: u64 = (pos.y as i64 + 0x8000_0000) as u64;
    hi * 0x1_0000_0000 + lo
}

fn decode(k: u64) -> (pos: CellVector)
    ensures
        pos@ == pt_of(k as int),
        key_of(pos@) == k,
{
    let hi: u64 = k / 0x1_0000_0000;
    let lo: u64 = k % 0x1_0000_0000;
    CellVector { x: (hi as i64 - 0x8000_0000) as i32, y: (lo as i64 - 0x8000_0000) as i32 }
}

/// A level under construction: cells by address.
#[derive(Clone, Debug)]
pub struct Grid {
    contents: HashMap<u64, MapCell>,
}

impl View for Grid {
    type V = Map<Pt, CellView>;

    closed spec fn view(&self) -> Map<Pt, CellView> {
        Map::new(
            |p: Pt| in_range(p) && self.contents@.contains_key(key_of(p) as u64),
            |p: Pt| self.contents@[key_of(p) as u64]@,
        )
    }
}

impl Grid {
    /// A grid defines only addressable cells, and finitely many.
    pub proof fn lemma_dom(&self)
        ensures
            self@.dom().finite(),
            forall|p: Pt| self@.contains_key(p) ==> in_range(p),
    {
        broadcast use vstd::std_specs::hash::group_hash_axioms;

        let keys = self.contents@.dom();
        let image = keys.map(|k: u64| pt_of(k as int));
        keys.lemma_map_finite(|k: u64| pt_of(k as int));
        assert(self@.dom().subset_of(image)) by {
            assert forall|p: Pt| self@.dom().contains(p) implies image.contains(p) by {
                let k = key_of(p) as u64;
                assert(keys.contains(k));
                assert(pt_of(k as int) == p);
            }
        }
        vstd::set_lib::lemma_len_subset(self@.dom(), image);
    }

    /// The empty grid.
    pub fn new() -> (g: Grid)
        ensures
            g@ == Map::<Pt, CellView>::empty(),
    {
        let g = Grid { contents: HashMap::new() };
        assert(g@ =~= Map::<Pt, CellView>::empty());
        g
    }

    /// A copy of the grid.
    pub fn duplicate(&self) -> (g: Grid)
        ensures
            g@ == self@,
    {
        let g = Grid { contents: self.contents.clone() };
        assert(g@ =~= self@);
        g
    }

    /// Stores `value` at `pos`, in place of what was there.
    pub fn insert(&mut self, pos: CellVector, value: MapCell)
        ensures
            final(self)@ == old(self)@.insert(pos@, value@),
    {
        broadcast use vstd::std_specs::hash::group_hash_axioms;

        let k = encode(pos);
        self.contents.insert(k, value);
        assert(self@ =~= old(self)@.insert(pos@, value@)) by {
            assert forall|p: Pt| in_range(p) && p != pos@ implies key_of(p) as u64 != k by {
                lemma_key_round_trip(p);
            }
        }
    }

    /// The cell at `pos`, if it is defined.
    pub fn get(&self, pos: CellVector) -> (r: Option<&MapCell>)
        ensures
            match r {
                Some(c) => self@.contains_key(pos@) && c@ == self@[pos@],
                None => !self@.contains_key(pos@),
            },
    {
        broadcast use vstd::std_specs::hash::group_hash_axioms;

        let k = encode(pos);
        self.contents.get(&k)
    }

    /// The cell at `pos + (dx, dy)`, if that is an address and defined.
    pub fn get_near(&self, pos: CellVector, dx: i32, dy: i32) -> (r: Option<&MapCell>)
        ensures
            match r {
                Some(c) => self@.contains_key(pt_add(pos@, (dx as int, dy as int))) && c@
                    == self@[pt_add(pos@, (dx as int, dy as int))],
                None => !self@.contains_key(pt_add(pos@, (dx as int, dy as int))),
            },
    {
        match pos.offset(dx, dy) {
            Some(q) => self.get(q),
            None => None,
        }
    }

    /// Whether the cell at `pos` is defined.
    pub fn contains(&self, pos: CellVector) -> (b: bool)
        ensures
            b == self@.contains_key(pos@),
    {
        self.get(pos).is_some()
    }

    /// Queues `spawn` on the cell at `pos`.  An undefined cell takes no
    /// spawn: the grid is left as it was.
    pub fn push_spawn(&mut self, pos: CellVector, spawn: EntitySpawn)
        ensures
            old(self)@.contains_key(pos@) ==> final(self)@ == old(self)@.insert(
                pos@,
                (CellView { spawns: old(self)@[pos@].spawns.push(spawn), ..old(self)@[pos@] }),
            ),
            !old(self)@.contains_key(pos@) ==> final(self)@ == old(self)@,
    {
        let found = match self.get(pos) {
            Some(c) => Some(c.duplicate()),
            None => None,
        };
        match found {
            Some(c) => {
                let mut c = c;
                c.spawns.push(spawn);
                self.insert(pos, c);
            },
            None => {},
        }
    }

    /// Number of defined cells.
    pub fn len(&self) -> (n: usize)
        ensures
            n == self@.dom().len(),
    {
        broadcast use vstd::std_specs::hash::group_hash_axioms;

        proof {
            self.lemma_len();
        }
        self.contents.len()
    }

    proof fn lemma_len(&self)
        ensures
            self@.dom().len() == self.contents@.dom().len(),
    {
        broadcast use vstd::std_specs::hash::group_hash_axioms;

        let keys = self.contents@.dom();
        let f = |k: u64| pt_of(k as int);
        assert(vstd::relations::injective(f)) by {
            assert forall|a: u64, b: u64| #[trigger] f(a) == #[trigger] f(b) implies a == b by {
                lemma_pt_round_trip(a as int);
                lemma_pt_round_trip(b as int);
            }
        }
        vstd::set_lib::lemma_map_size(keys, keys.map(f), f);
        assert(keys.map(f) =~= self@.dom()) by {
            assert forall|p: Pt| keys.map(f).contains(p) implies self@.dom().contains(p) by {
                let k = choose|k: u64| keys.contains(k) && p == f(k);
                lemma_pt_round_trip(k as int);
            }
            assert forall|p: Pt| self@.dom().contains(p) implies keys.map(f).contains(p) by {
                let k = key_of(p) as u64;
                assert(keys.contains(k) && f(k) == p);
            }
        }
    }

    /// All defined cells with their addresses, in the fixed order of the
    /// addresses.
    pub fn iter(&self) -> (out: Vec<(CellVector, MapCell)>)
        ensures
            out@.len() == self@.dom().len(),
            forall|i: int|
                0 <= i < out@.len() ==> self@.contains_key((#[trigger] out@[i]).0@) && out@[i].1@
                    == self@[out@[i].0@],
            forall|i: int, j: int|
                0 <= i < j < out@.len() ==> crate::geom::pt_lt(
                    (#[trigger] out@[i]).0@,
                    (#[trigger] out@[j]).0@,
                ),
            forall|p: Pt|
                self@.contains_key(p) ==> exists|i: int|
                    0 <= i < out@.len() && (#[trigger] out@[i]).0@ == p,
    {
        let cells = self.positions();
        proof {
            crate::order::lemma_ascending_distinct(cells@);
        }
        let mut out: Vec<(CellVector, MapCell)> = Vec::new();
        let mut i: usize = 0;
        while i < cells.len()
            invariant
                i <= cells@.len(),
                pts(cells@) == self@.dom(),
                out@.len() == i,
                forall|k: int|
                    0 <= k < i ==> (#[trigger] out@[k]).0 == cells@[k] && self@.contains_key(
                        cells@[k]@,
                    ) && out@[k].1@ == self@[cells@[k]@],
            decreases cells@.len() - i,
        {
            let p = cells[i];
            assert(pts(cells@).contains(cells@[i as int]@));
            let ghost before = out@;
            let cell = match self.get(p) {
                Some(c) => c.duplicate(),
                None => MapCell::default(),
            };
            out.push((p, cell));
            proof {
                assert forall|k: int| 0 <= k < i + 1 implies (#[trigger] out@[k]).0 == cells@[k]
                    && self@.contains_key(cells@[k]@) && out@[k].1@ == self@[cells@[k]@] by {
                    if k < i {
                        assert(out@[k] == before[k]);
                    }
                }
            }
            i += 1;
        }
        proof {
            assert forall|p: Pt| self@.contains_key(p) implies exists|i: int|
                0 <= i < out@.len() && (#[trigger] out@[i]).0@ == p by {
                assert(pts(cells@).contains(p));
                let k = choose|k: int| 0 <= k < cells@.len() && #[trigger] cells@[k]@ == p;
                assert(out@[k].0@ == p);
            }
        }
        out
    }

    /// The addresses of all defined cells, in the fixed order.
    pub fn positions(&self) -> (out: Vec<CellVector>)
        ensures
            ascending(out@),
            pts(out@) == self@.dom(),
    {
        broadcast use vstd::std_specs::hash::group_hash_axioms;

        let mut out: Vec<CellVector> = Vec::new();
        let ghost keys: Seq<&u64> = vstd::std_specs::hash::spec_keys_iter(&self.contents).remaining();
        let ghost n: int = 0;
        assert(pts(out@) =~= Set::<Pt>::empty());
        for k in it: self.contents.keys()
            invariant
                ascending(out@),
                it.seq() == keys,
                n == it.index(),
                0 <= n <= keys.len(),
                keys.no_duplicates(),
                keys.unref().to_set() == self.contents@.dom(),
                forall|p: Pt|
                    pts(out@).contains(p) <==> exists|i: int|
                        0 <= i < n && pt_of(*(#[trigger] keys[i]) as int) == p,
        {
            let pos = decode(*k);
            proof {
                if pts(out@).contains(pos@) {
                    let i = choose|i: int| 0 <= i < n && pt_of(*(#[trigger] keys[i]) as int) == pos@;
                    lemma_pt_round_trip(*keys[i] as int);
                    assert(keys[i] == keys[n]);
                }
            }
            let ghost before = out@;
            insert_ascending(&mut out, pos);
            proof {
                assert forall|p: Pt|
                    pts(out@).contains(p) <==> exists|i: int|
                        0 <= i < n + 1 && pt_of(*(#[trigger] keys[i]) as int) == p by {
                    if pts(out@).contains(p) {
                        if p == pos@ {
                            assert(pt_of(*keys[n] as int) == p);
                        } else {
                            assert(pts(before).contains(p));
                        }
                    }
                    if exists|i: int| 0 <= i < n + 1 && pt_of(*(#[trigger] keys[i]) as int) == p {
                        let i = choose|i: int| 0 <= i < n + 1 && pt_of(*(#[trigger] keys[i]) as int) == p;
                        if i < n {
                            assert(pts(before).contains(p));
                        }
                    }
                }
                n = n + 1;
            }
        }
        proof {
            assert(n == keys.len());
            assert(pts(out@) =~= self@.dom()) by {
                assert forall|p: Pt| pts(out@).contains(p) implies self@.dom().contains(p) by {
                    let i = choose|i: int| 0 <= i < n && pt_of(*(#[trigger] keys[i]) as int) == p;
                    lemma_pt_round_trip(*keys[i] as int);
                    assert(keys.unref()[i] == *keys[i]);
                    assert(keys.unref().to_set().contains(*keys[i]));
                }
                assert forall|p: Pt| self@.dom().contains(p) implies pts(out@).contains(p) by {
                    let k = key_of(p) as u64;
                    lemma_key_round_trip(p);
                    assert(keys.unref().to_set().contains(k));
                    let i = choose|i: int| 0 <= i < keys.unref().len() && keys.unref()[i] == k;
                    assert(*keys[i] == k);
                }
            }
        }
        out
    }
}

} // verus!
