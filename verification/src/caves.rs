//! A map generator that digs one winding cave.
//!
//! The cave grows from the middle of what may be dug: again and again a
//! cell at its edge is drawn, and dug the more readily the fewer dug cells
//! it touches, so that the cave grows into narrow corners.

use vstd::prelude::*;
use rand::XorShiftRng;
use crate::digger::{Dungeon, MapGen};
use crate::geom::{hex_adjacent, lemma_hex_adjacent_symmetric, pt_add, CellVector, Dir6, Pt};
use crate::order::{ascending, distinct, holds, insert_ascending, pts, take_at};
use crate::rng::gen_index;

verus! {

/// How often a cell is drawn at most.
pub const CAVE_DRAWS: usize = 10000;

/// How many cells a cave has at most.
pub const CAVE_CELLS: usize = 385;

/// The cave generator.
#[derive(Clone, Copy, Debug)]
pub struct Caves;

/// What the cave generator means to dig.
#[derive(Debug)]
pub struct CavePlan {
    /// The cells of the cave, in the order in which they are dug.
    pub cells: Vec<CellVector>,
    /// The cell of the stairs up.
    pub up: CellVector,
    /// The cell of the stairs down.
    pub down: CellVector,
}

/// Whether `cells` is a cave within `domain`: its cells are cells of
/// `domain`, none comes twice, and each but the first touches one that
/// comes before it.
pub open spec fn is_cave(cells: Seq<CellVector>, domain: Set<Pt>) -> bool {
    &&& 0 < cells.len() <= CAVE_CELLS
    &&& distinct(cells)
    &&& forall|i: int| 0 <= i < cells.len() ==> domain.contains(#[trigger] cells[i]@)
    &&& forall|i: int|
        0 < i < cells.len() ==> exists|j: int|
            0 <= j < i && hex_adjacent(cells[j]@, #[trigger] cells[i]@)
}

/// Whether `plan` is a plan for a cave within `domain`.  The stairs up
/// are where the cave starts; the stairs down are a cell of `domain` that
/// is part of the cave or touches it.
pub open spec fn is_plan(plan: CavePlan, domain: Set<Pt>) -> bool {
    &&& is_cave(plan.cells@, domain)
    &&& plan.up == plan.cells@[0]
    &&& domain.contains(plan.down@)
    &&& pts(plan.cells@).contains(plan.down@) || exists|j: int|
        0 <= j < plan.cells@.len() && hex_adjacent(#[trigger] plan.cells@[j]@, plan.down@)
}

/// Whether the cells of `edge` wait to be dug around the cave `dug`: each
/// may be dug, is not dug yet, and touches the cave.
spec fn is_edge(edge: Seq<CellVector>, dug: Seq<CellVector>, domain: Set<Pt>) -> bool {
    &&& ascending(edge)
    &&& forall|p: Pt|
        pts(edge).contains(p) ==> domain.contains(p) && !pts(dug).contains(p) && touches(dug, p)
}

/// Whether the cell `p` touches a cell of `dug`.
spec fn touches(dug: Seq<CellVector>, p: Pt) -> bool {
    exists|j: int| 0 <= j < dug.len() && hex_adjacent(#[trigger] dug[j]@, p)
}

/// How many of the first `k` neighbours of `p`, in the order of the
/// directions, are points of `dug`.
pub open spec fn count_around(dug: Set<Pt>, p: Pt, k: int) -> int
    decreases k,
{
    if k <= 0 {
        0
    } else {
        count_around(dug, p, k - 1) + if dug.contains(pt_add(p, Dir6::nth(k - 1).delta())) {
            1int
        } else {
            0int
        }
    }
}

/// The count is above zero just where one of the neighbours counted is a
/// point of `dug`, and never above the number of neighbours counted.
proof fn lemma_count_around(dug: Set<Pt>, p: Pt, k: int)
    requires
        0 <= k,
    ensures
        0 <= count_around(dug, p, k) <= k,
        count_around(dug, p, k) > 0 <==> exists|j: int|
            0 <= j < k && dug.contains(pt_add(p, #[trigger] Dir6::nth(j).delta())),
    decreases k,
{
    if k > 0 {
        lemma_count_around(dug, p, k - 1);
        if count_around(dug, p, k) > 0 {
            if dug.contains(pt_add(p, Dir6::nth(k - 1).delta())) {
                assert(0 <= k - 1 < k && dug.contains(pt_add(p, Dir6::nth(k - 1).delta())));
            } else {
                let j = choose|j: int|
                    0 <= j < k - 1 && dug.contains(pt_add(p, #[trigger] Dir6::nth(j).delta()));
                assert(0 <= j < k && dug.contains(pt_add(p, Dir6::nth(j).delta())));
            }
        }
        if exists|j: int| 0 <= j < k && dug.contains(pt_add(p, #[trigger] Dir6::nth(j).delta())) {
            let j = choose|j: int|
                0 <= j < k && dug.contains(pt_add(p, #[trigger] Dir6::nth(j).delta()));
            if j < k - 1 {
                assert(0 <= j < k - 1 && dug.contains(pt_add(p, Dir6::nth(j).delta())));
            }
        }
    }
}

/// How many of the six neighbours of `pick` are cells of `dug`.
fn dug_around(dug: &Vec<CellVector>, pick: CellVector) -> (n: usize)
    ensures
        n == count_around(pts(dug@), pick@, 6),
        n <= 6,
        touches(dug@, pick@) ==> n > 0,
{
    let mut n: usize = 0;
    let mut k: usize = 0;
    while k < 6
        invariant
            k <= 6,
            n <= k,
            n == count_around(pts(dug@), pick@, k as int),
        decreases 6 - k,
    {
        let d = Dir6::from_index(k);
        assert(d == Dir6::nth(k as int));
        match pick.step(d) {
            Some(q) => {
                if holds(dug, q) {
                    n += 1;
                }
            },
            None => {
                proof {
                    if pts(dug@).contains(pt_add(pick@, d.delta())) {
                        let i = choose|i: int|
                            0 <= i < dug@.len() && #[trigger] dug@[i]@ == pt_add(pick@, d.delta());
                    }
                }
            },
        }
        k += 1;
    }
    proof {
        lemma_count_around(pts(dug@), pick@, 6);
        if touches(dug@, pick@) {
            let j = choose|j: int| 0 <= j < dug@.len() && hex_adjacent(#[trigger] dug@[j]@, pick@);
            lemma_hex_adjacent_symmetric(dug@[j]@, pick@);
            let i = choose|i: int|
                0 <= i < 6 && dug@[j]@ == pt_add(pick@, #[trigger] Dir6::nth(i).delta());
            assert(pts(dug@).contains(dug@[j]@));
            assert(pts(dug@).contains(pt_add(pick@, Dir6::nth(i).delta())));
        }
    }
    n
}

/// The cells around `at` that may be dug and are not dug: those of its
/// first `k` neighbours, in the order of the directions, that are cells of
/// `domain` and none of `dug`.
pub open spec fn fringe(at: Pt, dug: Set<Pt>, domain: Set<Pt>, k: int) -> Set<Pt> {
    Set::new(
        |q: Pt|
            domain.contains(q) && !dug.contains(q) && exists|j: int|
                0 <= j < k && q == pt_add(at, #[trigger] Dir6::nth(j).delta()),
    )
}

/// Puts the neighbours of the newly dug last cell of `dug` that may be dug
/// to the edge: the edge then holds what it held, and every neighbour of
/// that cell that is a cell of `domain` and not dug.
fn widen(edge: &mut Vec<CellVector>, dug: &Vec<CellVector>, domain: &Vec<CellVector>)
    requires
        dug@.len() > 0,
        is_edge(old(edge)@, dug@, pts(domain@)),
    ensures
        is_edge(final(edge)@, dug@, pts(domain@)),
        pts(final(edge)@) == pts(old(edge)@).union(
            fringe(dug@[dug@.len() - 1]@, pts(dug@), pts(domain@), 6),
        ),
{
    let at = dug[dug.len() - 1];
    let ghost held = pts(edge@);
    let mut k: usize = 0;
    assert(pts(edge@) =~= held.union(fringe(at@, pts(dug@), pts(domain@), 0)));
    while k < 6
        invariant
            k <= 6,
            dug@.len() > 0,
            at == dug@[dug@.len() - 1],
            is_edge(edge@, dug@, pts(domain@)),
            pts(edge@) == held.union(fringe(at@, pts(dug@), pts(domain@), k as int)),
        decreases 6 - k,
    {
        let d = Dir6::from_index(k);
        assert(d == Dir6::nth(k as int));
        let ghost q0 = pt_add(at@, d.delta());
        let ghost before = pts(edge@);
        let ghost found = pts(domain@).contains(q0) && !pts(dug@).contains(q0);
        match at.step(d) {
            Some(q) => {
                if holds(domain, q) && !holds(dug, q) && !holds(edge, q) {
                    proof {
                        assert(hex_adjacent(at@, q@));
                        assert(touches(dug@, q@));
                    }
                    insert_ascending(edge, q);
                }
            },
            None => {
                proof {
                    if pts(domain@).contains(q0) {
                        let i = choose|i: int| 0 <= i < domain@.len() && #[trigger] domain@[i]@ == q0;
                    }
                }
            },
        }
        proof {
            assert(pts(edge@) =~= if found { before.insert(q0) } else { before });
            let now = fringe(at@, pts(dug@), pts(domain@), k + 1);
            let was = fringe(at@, pts(dug@), pts(domain@), k as int);
            assert(now =~= if found { was.insert(q0) } else { was }) by {
                assert forall|x: Pt| now.contains(x) implies was.contains(x) || (found && x == q0) by {
                    let j = choose|j: int|
                        0 <= j < k + 1 && x == pt_add(at@, #[trigger] Dir6::nth(j).delta());
                    if j < k {
                        assert(0 <= j < k && x == pt_add(at@, Dir6::nth(j).delta()));
                    }
                }
                assert forall|x: Pt| was.contains(x) implies now.contains(x) by {
                    let j = choose|j: int|
                        0 <= j < k && x == pt_add(at@, #[trigger] Dir6::nth(j).delta());
                    assert(0 <= j < k + 1 && x == pt_add(at@, Dir6::nth(j).delta()));
                }
                if found {
                    assert(0 <= k < k + 1 && q0 == pt_add(at@, Dir6::nth(k as int).delta()));
                    assert(now.contains(q0));
                }
            }
            assert(pts(edge@) =~= held.union(now));
        }
        k += 1;
    }
}

/// Plans a cave within `domain`; `None` where nothing may be dug.
pub fn cave_plan(rng: &mut XorShiftRng, domain: &Vec<CellVector>) -> (r: Option<CavePlan>)
    ensures
        domain@.len() == 0 <==> r is None,
        r matches Some(plan) ==> is_plan(plan, pts(domain@)),
{
    if domain.len() == 0 {
        return None;
    }
    let ghost all = pts(domain@);
    let center = domain[domain.len() / 2];
    assert(all.contains(domain@[(domain@.len() / 2) as int]@));
    let mut dug: Vec<CellVector> = Vec::new();
    dug.push(center);
    let mut edge: Vec<CellVector> = Vec::new();
    proof {
        assert(pts(edge@) =~= Set::<Pt>::empty());
        assert(dug@[0] == center);
    }
    assert(is_edge(edge@, dug@, all));
    widen(&mut edge, &dug, domain);
    let mut draws: usize = 0;
    while draws < CAVE_DRAWS && edge.len() > 0 && dug.len() < CAVE_CELLS
        invariant
            all == pts(domain@),
            dug@.len() > 0,
            dug@[0] == center,
            is_cave(dug@, all),
            is_edge(edge@, dug@, all),
        decreases CAVE_DRAWS - draws,
    {
        draws += 1;
        let i = gen_index(rng, edge.len());
        let pick = edge[i];
        assert(pts(edge@).contains(edge@[i as int]@));
        let nfloor = dug_around(&dug, pick);
        if gen_index(rng, nfloor) == 0 {
            let ghost before = dug@;
            let ghost edge_before = edge@;
            take_at(&mut edge, i);
            dug.push(pick);
            proof {
                assert(dug@[before.len() as int] == pick);
                assert forall|a: int, b: int| 0 <= a < b < dug@.len() implies #[trigger] dug@[a]@
                    != #[trigger] dug@[b]@ by {
                    assert(dug@[a] == before[a]);
                    if b < before.len() {
                        assert(dug@[b] == before[b]);
                    } else {
                        assert(pts(before).contains(before[a]@));
                    }
                }
                assert forall|k: int| 0 <= k < dug@.len() implies all.contains(#[trigger] dug@[k]@) by {
                    if k < before.len() {
                        assert(dug@[k] == before[k]);
                    }
                }
                assert forall|k: int| 0 < k < dug@.len() implies exists|j: int|
                    0 <= j < k && hex_adjacent(dug@[j]@, #[trigger] dug@[k]@) by {
                    if k < before.len() {
                        assert(dug@[k] == before[k]);
                        let j = choose|j: int| 0 <= j < k && hex_adjacent(before[j]@, before[k]@);
                        assert(dug@[j] == before[j]);
                    } else {
                        let j = choose|j: int| 0 <= j < before.len() && hex_adjacent(#[trigger] before[j]@, pick@);
                        assert(dug@[j] == before[j]);
                    }
                }
                assert(is_edge(edge_before, before, all));
                assert forall|p: Pt| pts(edge@).contains(p) implies all.contains(p) && !pts(
                    dug@,
                ).contains(p) && touches(dug@, p) by {
                    assert(pts(edge_before).contains(p));
                    assert(touches(before, p));
                    let j = choose|j: int| 0 <= j < before.len() && hex_adjacent(#[trigger] before[j]@, p);
                    assert(dug@[j] == before[j]);
                    assert(hex_adjacent(dug@[j]@, p));
                    if pts(dug@).contains(p) {
                        let k = choose|k: int| 0 <= k < dug@.len() && #[trigger] dug@[k]@ == p;
                        if k < before.len() {
                            assert(dug@[k] == before[k]);
                            assert(pts(before).contains(p));
                        }
                    }
                }
            }
            assert(is_edge(edge@, dug@, all));
            widen(&mut edge, &dug, domain);
        }
    }
    let down = if edge.len() > 0 {
        let i = gen_index(rng, edge.len());
        assert(pts(edge@).contains(edge@[i as int]@));
        edge[i]
    } else {
        dug[dug.len() - 1]
    };
    proof {
        if edge@.len() == 0 {
            assert(pts(dug@).contains(dug@[dug@.len() - 1]@));
            assert(all.contains(down@));
        } else {
            assert(pts(edge@).contains(down@));
            assert(touches(dug@, down@));
            let j = choose|j: int| 0 <= j < dug@.len() && hex_adjacent(#[trigger] dug@[j]@, down@);
            assert(0 <= j < dug@.len() && hex_adjacent(dug@[j]@, down@));
            assert(all.contains(down@));
        }
    }
    let plan = CavePlan { cells: dug, up: center, down };
    assert(is_plan(plan, all));
    Some(plan)
}

/// The level `v` with the cave of `plan` dug: its cells as one chamber,
/// then the stairs up, then the stairs down.
pub open spec fn cave_dug<D: Dungeon>(v: D::V, plan: CavePlan) -> D::V {
    D::down_stairs_added(
        D::up_stairs_added(D::chamber_dug(v, plan.cells@), plan.up@),
        plan.down@,
    )
}

impl MapGen for Caves {
    /// Digs a cave as a chamber, with the stairs up where the cave starts
    /// and the stairs down at its edge.  Where nothing may be dug nothing
    /// is dug.
    fn dig<D: Dungeon>(&self, rng: &mut XorShiftRng, dungeon: &mut D, domain: &Vec<CellVector>)
        ensures
            domain@.len() == 0 ==> final(dungeon)@ == old(dungeon)@,
            domain@.len() > 0 ==> exists|plan: CavePlan|
                is_plan(plan, pts(domain@)) && final(dungeon)@ == #[trigger] cave_dug::<D>(
                    old(dungeon)@,
                    plan,
                ),
    {
        match cave_plan(rng, domain) {
            Some(plan) => {
                dungeon.dig_chamber(&plan.cells);
                dungeon.add_up_stairs(plan.up);
                dungeon.add_down_stairs(plan.down);
                assert(is_plan(plan, pts(domain@)) && dungeon@ == cave_dug::<D>(
                    old(dungeon)@,
                    plan,
                ));
            },
            None => {},
        }
    }
}

} // verus!
