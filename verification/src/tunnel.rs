//! Digging tunnels between parts of a level.
//!
//! Whether a cell may be dug depends on what has been dug before, so the
//! search for a tunnel carries a whole grid with every place it has reached.

use vstd::prelude::*;
use crate::cell::{CellView, MapCell};
use crate::geom::{hex_dist, pt_add, pt_lt, lemma_dir_has_index, CellVector, Dir6, Pt};
use crate::grid::Grid;
use crate::order::{holds, lemma_pts_push, pts};
use crate::terrain::Terrain;

verus! {

/// Whether `world` has a cell at `p` that a walker can stand on.
pub open spec fn walkable_at(world: Map<Pt, CellView>, p: Pt) -> bool {
    world.contains_key(p) && world[p].walkable()
}

/// The cells beside a step in direction `dir`, as offsets from where the
/// step starts.  Open ground on any of them would show through the side of
/// the tunnel.
pub open spec fn flank(dir: Dir6) -> Seq<Pt> {
    match dir {
        Dir6::North => seq![(-1, 0), (0, -1), (-2, -1), (-1, -2)],
        Dir6::Northeast => seq![(-1, -1), (1, -1)],
        Dir6::Southeast => seq![(1, -1), (1, 1)],
        Dir6::South => seq![(1, 0), (0, 1), (2, 1), (1, 2)],
        Dir6::Southwest => seq![(-1, 1), (1, 1)],
        Dir6::Northwest => seq![(-1, -1), (-1, 1)],
    }
}

/// Whether a step from `pos` in direction `dir` would breach a side wall.
pub open spec fn breaches_side(world: Map<Pt, CellView>, pos: Pt, dir: Dir6) -> bool {
    exists|i: int|
        0 <= i < flank(dir).len() && walkable_at(world, pt_add(pos, #[trigger] flank(dir)[i]))
}

/// Whether a hex neighbour of `target` is a door already: a walkable cell of
/// a wall shell.
pub open spec fn beside_door(world: Map<Pt, CellView>, target: Pt) -> bool {
    exists|i: int|
        0 <= i < 6 && {
            let q = pt_add(target, #[trigger] Dir6::nth(i).delta());
            world.contains_key(q) && world[q].border() && world[q].walkable()
        }
}

/// Whether a tunnel may go from `pos` one step in direction `dir`.
pub open spec fn tunnel_ok(world: Map<Pt, CellView>, pos: Pt, dir: Dir6) -> bool {
    let target = pt_add(pos, dir.delta());
    if walkable_at(world, target) {
        true
    } else if !world.contains_key(target) || !world[target].can_dig || world[target].interior() {
        false
    } else if breaches_side(world, pos, dir) {
        false
    } else if world[target].border() && (!dir.fake_isometric() || beside_door(world, target)) {
        false
    } else if world.contains_key(pos) && world[pos].border() && !dir.fake_isometric() {
        false
    } else {
        true
    }
}

/// A step onto a cell that a walker can stand on is always allowed, and a
/// step into protected floor that no walker can stand on never is,
/// whatever lies around.
pub proof fn lemma_tunnel_legality(world: Map<Pt, CellView>, pos: Pt, dir: Dir6)
    ensures
        walkable_at(world, pt_add(pos, dir.delta())) ==> tunnel_ok(world, pos, dir),
        world.contains_key(pt_add(pos, dir.delta())) && world[pt_add(pos, dir.delta())].interior()
            && !world[pt_add(pos, dir.delta())].walkable() ==> !tunnel_ok(world, pos, dir),
        !world.contains_key(pt_add(pos, dir.delta())) ==> !tunnel_ok(world, pos, dir),
{
}

/// Whether digging at `pos` breaks no cell that must stay: the cell is
/// undefined, or is left alone, or can be dug.
pub open spec fn may_dig(world: Map<Pt, CellView>, pos: Pt) -> bool {
    world.contains_key(pos) && !world[pos].walkable() && !world[pos].interior()
        ==> world[pos].can_dig
}

/// The world after the cell at `pos` is dug.  Open cells, protected floor
/// and undefined cells stay; a shell cell becomes a door, any other cell
/// plain ground.
pub open spec fn dug(world: Map<Pt, CellView>, pos: Pt) -> Map<Pt, CellView> {
    if !world.contains_key(pos) {
        world
    } else if world[pos].walkable() || world[pos].interior() {
        world
    } else if world[pos].border() {
        world.insert(pos, world[pos].as_door())
    } else {
        world.insert(pos, CellView::of_terrain(Terrain::Ground))
    }
}

/// The world and the place reached after a tunnel is dug from `from` along
/// `dirs`, or `None` where a step of it is not allowed when its turn comes.
pub open spec fn tunnelled(world: Map<Pt, CellView>, from: Pt, dirs: Seq<Dir6>) -> Option<
    (Map<Pt, CellView>, Pt),
>
    decreases dirs.len(),
{
    if dirs.len() == 0 {
        Some((world, from))
    } else {
        match tunnelled(world, from, dirs.drop_last()) {
            Some((w, p)) => {
                if tunnel_ok(w, p, dirs.last()) {
                    let q = pt_add(p, dirs.last().delta());
                    Some((dug(w, q), q))
                } else {
                    None
                }
            },
            None => None,
        }
    }
}

/// The world that a tunnel from `from` along `dirs` leaves; `world` itself
/// where the tunnel cannot be dug.
pub open spec fn end_world(world: Map<Pt, CellView>, from: Pt, dirs: Seq<Dir6>) -> Map<
    Pt,
    CellView,
> {
    match tunnelled(world, from, dirs) {
        Some((w, p)) => w,
        None => world,
    }
}

/// The place where a tunnel from `from` along `dirs` ends; `from` itself
/// where the tunnel cannot be dug.
pub open spec fn end_place(world: Map<Pt, CellView>, from: Pt, dirs: Seq<Dir6>) -> Pt {
    match tunnelled(world, from, dirs) {
        Some((w, p)) => p,
        None => from,
    }
}

/// The points that a tunnel from `from` along `dirs` passes, `from` first.
pub open spec fn trail(from: Pt, dirs: Seq<Dir6>) -> Seq<Pt>
    decreases dirs.len(),
{
    if dirs.len() == 0 {
        seq![from]
    } else {
        let before = trail(from, dirs.drop_last());
        before.push(pt_add(before.last(), dirs.last().delta()))
    }
}

/// Digging defines no cell and undefines none, and closes no open cell.
/// It leaves protected floor as it is, and where it is allowed also every
/// cell that cannot be dug.
pub proof fn lemma_dug_keeps(world: Map<Pt, CellView>, pos: Pt)
    ensures
        dug(world, pos).dom() == world.dom(),
        forall|p: Pt| walkable_at(world, p) ==> walkable_at(dug(world, pos), p),
        forall|p: Pt| p != pos && world.contains_key(p) ==> dug(world, pos)[p] == world[p],
        world.contains_key(pos) && !world[pos].interior() ==> walkable_at(dug(world, pos), pos),
        forall|p: Pt|
            world.contains_key(p) && world[p].interior() ==> #[trigger] dug(world, pos)[p] == world[p],
        may_dig(world, pos) ==> forall|p: Pt|
            world.contains_key(p) && !world[p].can_dig ==> #[trigger] dug(world, pos)[p] == world[p],
{
    assert(dug(world, pos).dom() =~= world.dom());
}

/// A step that is allowed ends on a cell that is open once it is dug.
pub proof fn lemma_step_opens(world: Map<Pt, CellView>, pos: Pt, dir: Dir6)
    requires
        tunnel_ok(world, pos, dir),
    ensures
        world.contains_key(pt_add(pos, dir.delta())),
        may_dig(world, pt_add(pos, dir.delta())),
        walkable_at(dug(world, pt_add(pos, dir.delta())), pt_add(pos, dir.delta())),
{
    lemma_dug_keeps(world, pt_add(pos, dir.delta()));
}

/// A tunnel defines no cell and undefines none, closes no open cell, and
/// every cell it passes after the first is open in the end.
pub proof fn lemma_tunnelled(world: Map<Pt, CellView>, from: Pt, dirs: Seq<Dir6>)
    requires
        tunnelled(world, from, dirs) is Some,
    ensures
        end_world(world, from, dirs).dom() == world.dom(),
        forall|p: Pt| walkable_at(world, p) ==> walkable_at(end_world(world, from, dirs), p),
        trail(from, dirs).len() == dirs.len() + 1,
        trail(from, dirs)[0] == from,
        trail(from, dirs).last() == end_place(world, from, dirs),
        forall|i: int|
            1 <= i <= dirs.len() ==> walkable_at(
                end_world(world, from, dirs),
                #[trigger] trail(from, dirs)[i],
            ),
        forall|i: int|
            0 <= i < dirs.len() ==> crate::geom::hex_adjacent(
                #[trigger] trail(from, dirs)[i],
                trail(from, dirs)[i + 1],
            ),
    decreases dirs.len(),
{
    if dirs.len() > 0 {
        let short = dirs.drop_last();
        lemma_tunnelled(world, from, short);
        let w = end_world(world, from, short);
        let p = end_place(world, from, short);
        let q = pt_add(p, dirs.last().delta());
        lemma_step_opens(w, p, dirs.last());
        lemma_dug_keeps(w, q);
        let t = trail(from, dirs);
        let ts = trail(from, short);
        assert forall|i: int| 0 <= i < dirs.len() implies crate::geom::hex_adjacent(
            #[trigger] t[i],
            t[i + 1],
        ) by {
            if i < dirs.len() - 1 {
                assert(t[i] == ts[i] && t[i + 1] == ts[i + 1]);
            } else {
                lemma_dir_has_index(dirs.last());
                let k = choose|k: int| 0 <= k < 6 && Dir6::nth(k) == dirs.last();
                assert(t[i + 1] == pt_add(t[i], Dir6::nth(k).delta()));
            }
        }
        assert forall|i: int| 1 <= i <= dirs.len() implies walkable_at(
            end_world(world, from, dirs),
            #[trigger] t[i],
        ) by {
            if i < dirs.len() {
                assert(t[i] == ts[i]);
                assert(walkable_at(w, ts[i]));
            }
        }
    }
}

/// Whether `after` holds every protected cell of `before` as it was: the
/// cells of protected floor, and the cells that cannot be dug.
pub open spec fn kept(before: Map<Pt, CellView>, after: Map<Pt, CellView>) -> bool {
    forall|p: Pt|
        #![trigger after[p]]
        #![trigger after.contains_key(p)]
        before.contains_key(p) && (before[p].interior() || !before[p].can_dig) ==> after.contains_key(
            p,
        ) && after[p] == before[p]
}

/// A tunnel leaves protected floor as it is, and every cell that cannot be
/// dug.
pub proof fn lemma_tunnelled_keeps(world: Map<Pt, CellView>, from: Pt, dirs: Seq<Dir6>)
    requires
        tunnelled(world, from, dirs) is Some,
    ensures
        kept(world, end_world(world, from, dirs)),
    decreases dirs.len(),
{
    if dirs.len() > 0 {
        let short = dirs.drop_last();
        lemma_tunnelled_keeps(world, from, short);
        let w = end_world(world, from, short);
        let p = end_place(world, from, short);
        let q = pt_add(p, dirs.last().delta());
        lemma_step_opens(w, p, dirs.last());
        lemma_dug_keeps(w, q);
        let after = end_world(world, from, dirs);
        assert(after == dug(w, q));
        assert(kept(world, w));
        assert forall|x: Pt|
            world.contains_key(x) && (world[x].interior() || !world[x].can_dig) implies after.contains_key(
            x,
        ) && after[x] == world[x] by {
            assert(w.contains_key(x) && w[x] == world[x]);
            assert(dug(w, q)[x] == w[x]);
        }
    } else {
        assert(end_world(world, from, dirs) == world);
    }
}

/// A tunnel that starts with the digging of its first cell leaves
/// protected floor as it is, and every cell that cannot be dug.
pub proof fn lemma_found_keeps(
    world: Map<Pt, CellView>,
    src: Pt,
    dst: Pt,
    dirs: Seq<Dir6>,
    after: Map<Pt, CellView>,
)
    requires
        may_dig(world, src),
        tunnelled(dug(world, src), src, dirs) == Some((after, dst)),
    ensures
        kept(world, after),
{
    let start = dug(world, src);
    lemma_tunnelled_keeps(start, src, dirs);
    lemma_dug_keeps(world, src);
    assert(end_world(start, src, dirs) == after);
    assert(kept(start, after));
    assert forall|x: Pt|
        world.contains_key(x) && (world[x].interior() || !world[x].can_dig) implies after.contains_key(
        x,
    ) && after[x] == world[x] by {
        assert(start.contains_key(x) && start[x] == world[x]);
        assert(after.contains_key(x) && after[x] == start[x]);
    }
}

fn flank_cells(dir: Dir6) -> (v: Vec<CellVector>)
    ensures
        v@.len() == flank(dir).len(),
        forall|i: int| 0 <= i < v@.len() ==> #[trigger] v@[i]@ == flank(dir)[i],
{
    match dir {
        Dir6::North => vec![
            CellVector { x: -1, y: 0 },
            CellVector { x: 0, y: -1 },
            CellVector { x: -2, y: -1 },
            CellVector { x: -1, y: -2 },
        ],
        Dir6::Northeast => vec![CellVector { x: -1, y: -1 }, CellVector { x: 1, y: -1 }],
        Dir6::Southeast => vec![CellVector { x: 1, y: -1 }, CellVector { x: 1, y: 1 }],
        Dir6::South => vec![
            CellVector { x: 1, y: 0 },
            CellVector { x: 0, y: 1 },
            CellVector { x: 2, y: 1 },
            CellVector { x: 1, y: 2 },
        ],
        Dir6::Southwest => vec![CellVector { x: -1, y: 1 }, CellVector { x: 1, y: 1 }],
        Dir6::Northwest => vec![CellVector { x: -1, y: -1 }, CellVector { x: -1, y: 1 }],
    }
}

/// A place that the search has reached, with the grid as dug on the way.
struct Node {
    pos: CellVector,
    grid: Grid,
    path: Ghost<Seq<Dir6>>,
}

impl Grid {
    fn side_breach(&self, pos: CellVector, dir: Dir6) -> (b: bool)
        ensures
            b == breaches_side(self@, pos@, dir),
    {
        let cells = flank_cells(dir);
        let mut i: usize = 0;
        while i < cells.len()
            invariant
                i <= cells.len(),
                cells@.len() == flank(dir).len(),
                forall|k: int| 0 <= k < cells@.len() ==> #[trigger] cells@[k]@ == flank(dir)[k],
                forall|k: int|
                    0 <= k < i ==> !walkable_at(self@, pt_add(pos@, #[trigger] flank(dir)[k])),
            decreases cells.len() - i,
        {
            let d = cells[i];
            assert(d@ == flank(dir)[i as int]);
            match self.get_near(pos, d.x, d.y) {
                Some(c) => {
                    if c.is_walkable() {
                        return true;
                    }
                },
                None => {},
            }
            i += 1;
        }
        false
    }

    fn next_to_door(&self, target: CellVector) -> (b: bool)
        ensures
            b == beside_door(self@, target@),
    {
        let mut i: usize = 0;
        while i < 6
            invariant
                i <= 6,
                forall|k: int|
                    0 <= k < i ==> !({
                        let q = pt_add(target@, #[trigger] Dir6::nth(k).delta());
                        self@.contains_key(q) && self@[q].border() && self@[q].walkable()
                    }),
            decreases 6 - i,
        {
            let d = Dir6::from_index(i).to_v2();
            assert(d@ == Dir6::nth(i as int).delta());
            match self.get_near(target, d.x, d.y) {
                Some(c) => {
                    if c.is_border() && c.is_walkable() {
                        return true;
                    }
                },
                None => {},
            }
            i += 1;
        }
        false
    }

    /// Whether a tunnel can go from `pos` one step in direction `dir`.  A
    /// step onto open ground is allowed: nothing is dug there.
    pub fn can_tunnel(&self, pos: CellVector, dir: Dir6) -> (b: bool)
        ensures
            b == tunnel_ok(self@, pos@, dir),
    {
        proof {
            self.lemma_dom();
        }
        let target_pos = match pos.step(dir) {
            Some(t) => t,
            None => {
                return false;
            },
        };
        let (t_dig, t_interior, t_border) = match self.get(target_pos) {
            Some(c) => {
                if c.is_walkable() {
                    return true;
                }
                (c.can_dig, c.is_interior(), c.is_border())
            },
            None => {
                return false;
            },
        };
        if !t_dig || t_interior {
            return false;
        }
        if self.side_breach(pos, dir) {
            return false;
        }
        if t_border {
            if !dir.is_fake_isometric() {
                return false;
            }
            if self.next_to_door(target_pos) {
                return false;
            }
        }
        let from_border = match self.get(pos) {
            Some(c) => c.is_border(),
            None => false,
        };
        if from_border && !dir.is_fake_isometric() {
            return false;
        }
        true
    }

    /// Digs the cell at `pos`.
    pub fn dig(&mut self, pos: CellVector)
        requires
            may_dig(old(self)@, pos@),
        ensures
            final(self)@ == dug(old(self)@, pos@),
    {
        let replacement: Option<MapCell> = match self.get(pos) {
            Some(existing) => {
                if existing.is_walkable() || existing.is_interior() {
                    None
                } else if existing.is_border() {
                    Some(existing.duplicate().to_door())
                } else {
                    Some(MapCell::new_terrain(Terrain::Ground))
                }
            },
            None => None,
        };
        match replacement {
            Some(c) => {
                self.insert(pos, c);
            },
            None => {},
        }
    }

    /// Looks for a tunnel from `src` to `dst`, and returns a copy of the grid
    /// with the tunnel dug if it finds one.
    ///
    /// The search goes on from the reached place that is nearest to `dst`,
    /// the first in the fixed order among equals, and tries the six
    /// directions in turn; it ends as soon as a step arrives at `dst`.
    #[verifier::rlimit(60)]
    pub fn find_tunnel(&self, src: CellVector, dst: CellVector) -> (r: Option<Grid>)
        requires
            may_dig(self@, src@),
        ensures
            r matches Some(g) ==> exists|dirs: Seq<Dir6>|
                dirs.len() > 0 && #[trigger] tunnelled(dug(self@, src@), src@, dirs) == Some(
                    (g@, dst@),
                ),
            one_step_away(dug(self@, src@), src@, dst@) ==> r is Some,
            (forall|i: int| 0 <= i < 6 ==> !tunnel_ok(dug(self@, src@), src@, #[trigger] Dir6::nth(i)))
                ==> r is None,
            match r {
                Some(g) => tunnel_found(self@, src@, dst@) == Some(g@),
                None => tunnel_found(self@, src@, dst@) is None,
            },
            r matches Some(g) ==> kept(self@, g@),
    {
        let mut seed = self.duplicate();
        seed.dig(src);
        let ghost start = seed@;
        let ghost bound = self@.dom().insert(src@);
        proof {
            self.lemma_dom();
            lemma_dug_keeps(self@, src@);
        }
        let mut open: Vec<Node> = Vec::new();
        let mut closed: Vec<CellVector> = Vec::new();
        let ghost mut first: bool = true;
        open.push(Node { pos: src, grid: seed, path: Ghost(Seq::empty()) });
        assert(pts(closed@) =~= Set::<Pt>::empty());
        let ghost wanted = tunnel_found(self@, src@, dst@);
        assert(all_seen(open@) =~= seq![Reached { pos: src@, world: start }]);

        while open.len() > 0
            invariant
                start == dug(self@, src@),
                start.dom() == self@.dom(),
                bound == self@.dom().insert(src@),
                bound.finite(),
                pts(closed@).finite(),
                pts(closed@).subset_of(bound),
                pts(closed@).len() == closed@.len(),
                open_ok(start, src@, open@),
                forall|i: int| 0 <= i < open@.len() ==> bound.contains(#[trigger] open@[i].pos@),
                forall|i: int|
                    0 <= i < open@.len() ==> !pts(closed@).contains(#[trigger] open@[i].pos@),
                first ==> open@.len() == 1 && open@[0].pos@ == src@ && open@[0].grid@ == start
                    && closed@.len() == 0,
                !first ==> !one_step_away(start, src@, dst@),
                wanted == tunnel_found(self@, src@, dst@),
                wanted == search(
                    all_seen(open@),
                    pts(closed@),
                    dst@,
                    (bound.len() + 1 - closed@.len()) as nat,
                ),
                may_dig(self@, src@),
            decreases bound.len() - closed@.len(),
        {
            let ghost whole = open@;
            let ghost rounds = (bound.len() + 1 - closed@.len()) as nat;
            proof {
                vstd::set_lib::lemma_len_subset(pts(closed@), bound);
                assert(rounds > 0);
            }
            let node = take_nearest(&mut open, dst, Ghost(start), Ghost(src@));
            proof {
                lemma_tunnelled(start, src@, node.path@);
            }
            let ghost rest = open@;
            proof {
                assert(bound.contains(node.pos@) && !pts(closed@).contains(node.pos@)) by {
                    let i = choose|i: int| 0 <= i < whole.len() && whole[i] == node;
                    assert(bound.contains(whole[i].pos@));
                }
                assert forall|j: int| 0 <= j < rest.len() implies #[trigger] rest[j].pos@
                    != node.pos@ && bound.contains(rest[j].pos@) && !pts(closed@).contains(
                    rest[j].pos@,
                ) by {
                    let i = choose|i: int| 0 <= i < whole.len() && whole[i] == rest[j];
                    assert(bound.contains(whole[i].pos@));
                }
            }
            let found = expand(&node, &mut open, &closed, dst, Ghost(start), Ghost(src@));
            match found {
                Some(g) => {
                    proof {
                        let dirs = choose|dirs: Seq<Dir6>|
                            dirs.len() > 0 && #[trigger] tunnelled(start, src@, dirs) == Some(
                                (g@, dst@),
                            );
                        lemma_first_step(start, src@, dirs);
                        lemma_dir_has_index(dirs[0]);
                        lemma_found_keeps(self@, src@, dst@, dirs, g@);
                    }
                    return Some(g);
                },
                None => {},
            }
            let ghost before = closed@;
            let p = node.pos;
            closed.push(p);
            proof {
                lemma_pts_push(before, p);
                assert(wanted == search(
                    all_seen(open@),
                    pts(before).insert(p@),
                    dst@,
                    (rounds - 1) as nat,
                ));
                vstd::set_lib::lemma_len_subset(pts(closed@), bound);
                if first {
                    assert(node == whole[0]) by {
                        let i = choose|i: int| 0 <= i < whole.len() && whole[i] == node;
                    }
                    assert(rest.len() == 0);
                    assert(pts(before) =~= Set::<Pt>::empty());
                    if one_step_away(start, src@, dst@) {
                        let i = choose|i: int|
                            0 <= i < 6 && pt_add(src@, #[trigger] Dir6::nth(i).delta()) == dst@
                                && tunnel_ok(start, src@, Dir6::nth(i));
                        assert(!pts(before).contains(dst@));
                        assert(false);
                    }
                }
                assert forall|i: int| 0 <= i < open@.len() implies bound.contains(
                    #[trigger] open@[i].pos@,
                ) && !pts(closed@).contains(open@[i].pos@) by {
                    let x = open@[i].pos@;
                    if exists|j: int| 0 <= j < rest.len() && rest[j].pos@ == x {
                        let j = choose|j: int| 0 <= j < rest.len() && rest[j].pos@ == x;
                        assert(rest[j].pos@ != node.pos@ && bound.contains(rest[j].pos@)
                            && !pts(before).contains(rest[j].pos@));
                    } else {
                        assert(node.grid@.contains_key(x));
                        assert(self@.dom().contains(x));
                    }
                }
                first = false;
            }
        }
        None
    }
}

/// Whether `goal` is one allowed step from `from`.
pub open spec fn one_step_away(world: Map<Pt, CellView>, from: Pt, goal: Pt) -> bool {
    exists|i: int|
        0 <= i < 6 && pt_add(from, #[trigger] Dir6::nth(i).delta()) == goal && tunnel_ok(
            world,
            from,
            Dir6::nth(i),
        )
}

/// The first step of a tunnel that can be dug is allowed as the world
/// stands.
pub proof fn lemma_first_step(world: Map<Pt, CellView>, from: Pt, dirs: Seq<Dir6>)
    requires
        dirs.len() > 0,
        tunnelled(world, from, dirs) is Some,
    ensures
        tunnel_ok(world, from, dirs[0]),
    decreases dirs.len(),
{
    reveal_with_fuel(tunnelled, 2);
    if dirs.len() > 1 {
        lemma_first_step(world, from, dirs.drop_last());
        assert(dirs.drop_last()[0] == dirs[0]);
    } else {
        assert(dirs.drop_last().len() == 0);
        assert(dirs.last() == dirs[0]);
    }
}

/// Whether the search may hold `n`: the grid of `n` is what a tunnel from
/// `from` to the place of `n` leaves of `start`.
spec fn node_ok(start: Map<Pt, CellView>, from: Pt, n: Node) -> bool {
    tunnelled(start, from, n.path@) == Some((n.grid@, n.pos@))
}

/// Whether the search may hold the nodes of `open`: each is as it should
/// be, and no two stand for one place.
spec fn open_ok(start: Map<Pt, CellView>, from: Pt, open: Seq<Node>) -> bool {
    &&& forall|i: int| 0 <= i < open.len() ==> node_ok(start, from, #[trigger] open[i])
    &&& forall|i: int, j: int|
        0 <= i < j < open.len() ==> #[trigger] open[i].pos@ != #[trigger] open[j].pos@
}

/// Whether a node at `a` is to be tried before one at `b` on the way to
/// `goal`: the nearer first, and of two equally near the first in the fixed
/// order.
pub open spec fn tried_before(a: Pt, b: Pt, goal: Pt) -> bool {
    hex_dist(a, goal) < hex_dist(b, goal) || (hex_dist(a, goal) == hex_dist(b, goal) && pt_lt(
        a,
        b,
    ))
}

/// A place that a search has reached, with the world as dug on the way
/// there.
pub struct Reached {
    pub pos: Pt,
    pub world: Map<Pt, CellView>,
}

/// The reached place that the search goes on from: the one to be tried
/// before all others, as its index in `open`.
pub open spec fn best(open: Seq<Reached>, goal: Pt) -> int
    decreases open.len(),
{
    if open.len() <= 1 {
        0
    } else {
        let b = best(open.drop_last(), goal);
        if tried_before(open.last().pos, open[b].pos, goal) {
            open.len() - 1
        } else {
            b
        }
    }
}

/// The index in `open` of the first place at `p`; the length of `open`
/// where there is none.
pub open spec fn index_of(open: Seq<Reached>, p: Pt) -> int
    decreases open.len(),
{
    if open.len() == 0 {
        0
    } else {
        let i = index_of(open.drop_last(), p);
        if i < open.len() - 1 {
            i
        } else if open.last().pos == p {
            open.len() - 1
        } else {
            open.len() as int
        }
    }
}

/// The reached places with `fresh` among them, in place of what was known
/// of its place.
pub open spec fn put_node(open: Seq<Reached>, fresh: Reached) -> Seq<Reached> {
    let i = index_of(open, fresh.pos);
    if i < open.len() {
        open.update(i, fresh)
    } else {
        open.push(fresh)
    }
}

/// What trying the steps from a place comes to: the places reached, and
/// the world with the tunnel dug if a step arrived at the goal.
pub struct Tried {
    pub open: Seq<Reached>,
    pub found: Option<Map<Pt, CellView>>,
}

/// What trying the directions from number `k` on from `node` comes to.  A
/// step is taken where it is allowed and leads to no place that is closed.
/// The first step that arrives at `goal` ends the search.
pub open spec fn expanded(node: Reached, open: Seq<Reached>, closed: Set<Pt>, goal: Pt, k: int) -> Tried
    decreases 6 - k,
{
    if k < 0 || k >= 6 {
        Tried { open, found: None }
    } else {
        let q = pt_add(node.pos, Dir6::nth(k).delta());
        if !closed.contains(q) && tunnel_ok(node.world, node.pos, Dir6::nth(k)) {
            if q == goal {
                Tried { open, found: Some(dug(node.world, q)) }
            } else {
                expanded(
                    node,
                    put_node(open, Reached { pos: q, world: dug(node.world, q) }),
                    closed,
                    goal,
                    k + 1,
                )
            }
        } else {
            expanded(node, open, closed, goal, k + 1)
        }
    }
}

/// What the search for `goal` comes to from the reached places `open`,
/// with the places of `closed` done with, in at most `rounds` rounds.
pub open spec fn search(open: Seq<Reached>, closed: Set<Pt>, goal: Pt, rounds: nat) -> Option<
    Map<Pt, CellView>,
>
    decreases rounds,
{
    if rounds == 0 || open.len() == 0 {
        None
    } else {
        let i = best(open, goal);
        let tried = expanded(open[i], open.remove(i), closed, goal, 0);
        match tried.found {
            Some(world) => Some(world),
            None => search(tried.open, closed.insert(open[i].pos), goal, (rounds - 1) as nat),
        }
    }
}

/// The world with the tunnel from `src` to `dst` that the search finds,
/// if it finds one.  Each place is done with once, so the search needs no
/// more rounds than there are cells.
pub open spec fn tunnel_found(world: Map<Pt, CellView>, src: Pt, dst: Pt) -> Option<
    Map<Pt, CellView>,
> {
    search(
        seq![Reached { pos: src, world: dug(world, src) }],
        Set::empty(),
        dst,
        (world.dom().insert(src).len() + 1) as nat,
    )
}

/// The place and world of a node.
spec fn seen(n: Node) -> Reached {
    Reached { pos: n.pos@, world: n.grid@ }
}

/// The places and worlds of the nodes of `open`.
spec fn all_seen(open: Seq<Node>) -> Seq<Reached> {
    Seq::new(open.len(), |i: int| seen(open[i]))
}

/// The first place at `p` is found by looking through `open` from its
/// start.
proof fn lemma_index_of(open: Seq<Reached>, p: Pt, i: int)
    requires
        0 <= i <= open.len(),
        forall|k: int| 0 <= k < i ==> (#[trigger] open[k]).pos != p,
        i < open.len() ==> open[i].pos == p,
    ensures
        index_of(open, p) == i,
    decreases open.len(),
{
    if open.len() > 0 {
        let head = open.drop_last();
        if i < open.len() - 1 {
            assert(head[i] == open[i]);
            assert forall|k: int| 0 <= k < i implies (#[trigger] head[k]).pos != p by {
                assert(head[k] == open[k]);
            }
            lemma_index_of(head, p, i);
        } else {
            assert forall|k: int| 0 <= k < head.len() implies (#[trigger] head[k]).pos != p by {
                assert(head[k] == open[k]);
            }
            lemma_index_of(head, p, head.len() as int);
        }
    }
}

fn nearest(open: &Vec<Node>, goal: CellVector) -> (idx: usize)
    requires
        open@.len() > 0,
    ensures
        idx < open@.len(),
        idx == best(all_seen(open@), goal@),
{
    let ghost all = all_seen(open@);
    let mut at: usize = 0;
    let mut i: usize = 1;
    assert(all.take(1).len() == 1);
    while i < open.len()
        invariant
            1 <= i <= open.len(),
            at < i,
            all == all_seen(open@),
            at == best(all.take(i as int), goal@),
        decreases open.len() - i,
    {
        let a = open[i].pos;
        let b = open[at].pos;
        let da = a.hex_dist(goal);
        let db = b.hex_dist(goal);
        proof {
            let now = all.take(i + 1);
            assert(now.drop_last() =~= all.take(i as int));
            assert(now.last() == seen(open@[i as int]));
            assert(now[at as int] == seen(open@[at as int]));
        }
        if da < db || (da == db && a.precedes(b)) {
            at = i;
        }
        i += 1;
    }
    assert(all.take(i as int) =~= all);
    at
}

/// Takes the node to try next out of `open`.
fn take_nearest(
    open: &mut Vec<Node>,
    goal: CellVector,
    Ghost(start): Ghost<Map<Pt, CellView>>,
    Ghost(from): Ghost<Pt>,
) -> (node: Node)
    requires
        old(open)@.len() > 0,
        open_ok(start, from, old(open)@),
    ensures
        node_ok(start, from, node),
        open_ok(start, from, final(open)@),
        final(open)@.len() == old(open)@.len() - 1,
        exists|i: int| 0 <= i < old(open)@.len() && old(open)@[i] == node,
        forall|j: int|
            0 <= j < final(open)@.len() ==> #[trigger] final(open)@[j].pos@ != node.pos@ && exists|i: int|
                0 <= i < old(open)@.len() && old(open)@[i] == final(open)@[j],
        seen(node) == all_seen(old(open)@)[best(all_seen(old(open)@), goal@)],
        all_seen(final(open)@) == all_seen(old(open)@).remove(best(all_seen(old(open)@), goal@)),
{
    let idx = nearest(open, goal);
    let ghost whole = open@;
    let node = open.remove(idx);
    proof {
        assert(node == whole[idx as int]);
        assert(all_seen(open@) =~= all_seen(whole).remove(idx as int));
        assert forall|j: int| 0 <= j < open@.len() implies #[trigger] open@[j].pos@ != node.pos@
            && node_ok(start, from, open@[j]) && exists|i: int|
            0 <= i < whole.len() && whole[i] == open@[j] by {
            if j < idx {
                assert(open@[j] == whole[j]);
            } else {
                assert(open@[j] == whole[j + 1]);
            }
        }
        assert forall|i: int, j: int| 0 <= i < j < open@.len() implies #[trigger] open@[i].pos@
            != #[trigger] open@[j].pos@ by {
            let a = if i < idx { i } else { i + 1 };
            let b = if j < idx { j } else { j + 1 };
            assert(open@[i] == whole[a] && open@[j] == whole[b]);
        }
    }
    node
}

/// Tries the six steps from `node`.  A step that arrives at `goal` ends the
/// search; any other allowed step to a place not yet closed puts that place
/// among the open ones, in place of what was known of it.
fn expand(
    node: &Node,
    open: &mut Vec<Node>,
    closed: &Vec<CellVector>,
    goal: CellVector,
    Ghost(start): Ghost<Map<Pt, CellView>>,
    Ghost(from): Ghost<Pt>,
) -> (r: Option<Grid>)
    requires
        node_ok(start, from, *node),
        open_ok(start, from, old(open)@),
    ensures
        r matches Some(g) ==> exists|dirs: Seq<Dir6>|
            dirs.len() > 0 && #[trigger] tunnelled(start, from, dirs) == Some((g@, goal@)),
        r is None ==> open_ok(start, from, final(open)@),
        r is None ==> forall|i: int|
            0 <= i < final(open)@.len() ==> ((exists|j: int|
                0 <= j < old(open)@.len() && old(open)@[j].pos@ == #[trigger] final(open)@[i].pos@)
                || (node.grid@.contains_key(final(open)@[i].pos@) && !pts(closed@).contains(
                final(open)@[i].pos@,
            ) && final(open)@[i].pos@ != node.pos@)),
        r is None ==> !(one_step_away(node.grid@, node.pos@, goal@) && !pts(closed@).contains(
            goal@,
        )),
        r is None && old(open)@.len() == 0 && (forall|i: int|
            0 <= i < 6 ==> !tunnel_ok(node.grid@, node.pos@, #[trigger] Dir6::nth(i)))
            ==> final(open)@.len() == 0,
        match r {
            Some(g) => expanded(
                seen(*node),
                all_seen(old(open)@),
                pts(closed@),
                goal@,
                0,
            ).found == Some(g@),
            None => expanded(seen(*node), all_seen(old(open)@), pts(closed@), goal@, 0) == (Tried {
                open: all_seen(final(open)@),
                found: None,
            }),
        },
{
    let p = node.pos;
    let ghost wanted = expanded(seen(*node), all_seen(open@), pts(closed@), goal@, 0);
    let mut k: usize = 0;
    while k < 6
        invariant
            k <= 6,
            p == node.pos,
            node_ok(start, from, *node),
            open_ok(start, from, open@),
            wanted == expanded(seen(*node), all_seen(old(open)@), pts(closed@), goal@, 0),
            wanted == expanded(seen(*node), all_seen(open@), pts(closed@), goal@, k as int),
            forall|i: int|
                0 <= i < open@.len() ==> ((exists|j: int|
                    0 <= j < old(open)@.len() && old(open)@[j].pos@ == #[trigger] open@[i].pos@)
                    || (node.grid@.contains_key(open@[i].pos@) && !pts(closed@).contains(
                    open@[i].pos@,
                ) && open@[i].pos@ != p@)),
            forall|i: int|
                0 <= i < k ==> !(pt_add(p@, #[trigger] Dir6::nth(i).delta()) == goal@ && tunnel_ok(
                    node.grid@,
                    p@,
                    Dir6::nth(i),
                ) && !pts(closed@).contains(goal@)),
            old(open)@.len() == 0 && (forall|i: int|
                0 <= i < 6 ==> !tunnel_ok(node.grid@, node.pos@, #[trigger] Dir6::nth(i)))
                ==> open@.len() == 0,
        decreases 6 - k,
    {
        let d = Dir6::from_index(k);
        assert(d == Dir6::nth(k as int));
        proof {
            node.grid.lemma_dom();
        }
        let ghost here = all_seen(open@);
        let ghost q0 = pt_add(p@, d.delta());
        match p.step(d) {
            Some(q) => {
                if !holds(closed, q) {
                    if node.grid.can_tunnel(p, d) {
                        let mut new_map = node.grid.duplicate();
                        proof {
                            lemma_step_opens(node.grid@, p@, d);
                        }
                        new_map.dig(q);
                        let ghost path = node.path@.push(d);
                        proof {
                            assert(path.drop_last() =~= node.path@);
                            assert(path.last() == d);
                            assert(tunnelled(start, from, path) == Some((new_map@, q@)));
                        }
                        if q == goal {
                            proof {
                                assert(q@ == q0 && q0 == goal@);
                                assert(seen(*node).pos == p@ && seen(*node).world == node.grid@);
                                assert(new_map@ == dug(node.grid@, q0));
                                assert(expanded(
                                    seen(*node),
                                    here,
                                    pts(closed@),
                                    goal@,
                                    k as int,
                                ).found == Some(new_map@));
                            }
                            return Some(new_map);
                        }
                        let fresh = Node { pos: q, grid: new_map, path: Ghost(path) };
                        let ghost before = open@;
                        put(open, fresh, Ghost(start), Ghost(from));
                        proof {
                            assert forall|i: int| 0 <= i < open@.len() implies ((exists|j: int|
                                0 <= j < old(open)@.len() && old(open)@[j].pos@
                                    == #[trigger] open@[i].pos@) || (node.grid@.contains_key(
                                open@[i].pos@,
                            ) && !pts(closed@).contains(open@[i].pos@) && open@[i].pos@ != p@)) by {
                                assert(d.delta() != (0int, 0int));
                                if open@[i].pos@ != q@ {
                                    let j = choose|j: int|
                                        0 <= j < before.len() && before[j].pos@ == open@[i].pos@;
                                    assert(before[j].pos@ == open@[i].pos@);
                                }
                            }
                            assert(all_seen(open@) == put_node(
                                here,
                                Reached { pos: q0, world: dug(node.grid@, q0) },
                            ));
                        }
                    }
                }
            },
            None => {
                proof {
                    assert(!tunnel_ok(node.grid@, p@, d));
                }
            },
        }
        k += 1;
    }
    None
}

fn put(open: &mut Vec<Node>, fresh: Node, Ghost(start): Ghost<Map<Pt, CellView>>, Ghost(from): Ghost<Pt>)
    requires
        node_ok(start, from, fresh),
        open_ok(start, from, old(open)@),
    ensures
        open_ok(start, from, final(open)@),
        final(open)@.len() > 0,
        forall|i: int|
            0 <= i < final(open)@.len() ==> (#[trigger] final(open)@[i].pos@ == fresh.pos@ || exists|j: int|
                0 <= j < old(open)@.len() && old(open)@[j].pos@ == final(open)@[i].pos@),
        all_seen(final(open)@) == put_node(all_seen(old(open)@), seen(fresh)),
{
    let mut i: usize = 0;
    while i < open.len()
        invariant
            i <= open.len(),
            open@ == old(open)@,
            node_ok(start, from, fresh),
            open_ok(start, from, open@),
            forall|k: int| 0 <= k < i ==> #[trigger] open@[k].pos@ != fresh.pos@,
        decreases open.len() - i,
    {
        if open[i].pos == fresh.pos {
            let ghost at = fresh.pos@;
            let ghost f = fresh;
            open.set(i, fresh);
            proof {
                assert(open@[i as int] == f);
                assert forall|k: int| 0 <= k < i implies (#[trigger] all_seen(old(open)@)[k]).pos
                    != f.pos@ by {
                    assert(old(open)@[k].pos@ != f.pos@);
                }
                lemma_index_of(all_seen(old(open)@), f.pos@, i as int);
                assert(all_seen(open@) =~= all_seen(old(open)@).update(i as int, seen(f)));
                assert(old(open)@[i as int].pos == f.pos);
                assert forall|a: int| 0 <= a < open@.len() implies #[trigger] open@[a].pos@
                    == old(open)@[a].pos@ by {
                    if a != i {
                        assert(open@[a] == old(open)@[a]);
                    }
                }
                assert forall|a: int, b: int| 0 <= a < b < open@.len() implies #[trigger] open@[a].pos@
                    != #[trigger] open@[b].pos@ by {
                    assert(open@[a].pos@ == old(open)@[a].pos@);
                    assert(open@[b].pos@ == old(open)@[b].pos@);
                }
                assert forall|a: int| 0 <= a < open@.len() implies node_ok(
                    start,
                    from,
                    #[trigger] open@[a],
                ) by {
                    if a != i {
                        assert(open@[a] == old(open)@[a]);
                    }
                }
                assert forall|a: int| 0 <= a < open@.len() implies (#[trigger] open@[a].pos@ == at
                    || exists|j: int|
                    0 <= j < old(open)@.len() && old(open)@[j].pos@ == open@[a].pos@) by {
                    assert(old(open)@[a].pos@ == open@[a].pos@);
                }
            }
            return ;
        }
        i += 1;
    }
    let ghost at = fresh.pos@;
    let ghost f = fresh;
    open.push(fresh);
    proof {
        assert forall|k: int| 0 <= k < old(open)@.len() implies (#[trigger] all_seen(
            old(open)@,
        )[k]).pos != at by {
            assert(old(open)@[k].pos@ != at);
        }
        lemma_index_of(all_seen(old(open)@), at, old(open)@.len() as int);
        assert(all_seen(open@) =~= all_seen(old(open)@).push(seen(f)));
        assert forall|a: int| 0 <= a < open@.len() implies (#[trigger] open@[a].pos@ == at
            || exists|j: int| 0 <= j < old(open)@.len() && old(open)@[j].pos@ == open@[a].pos@) by {
            if a < old(open)@.len() {
                assert(open@[a] == old(open)@[a]);
            }
        }
        assert forall|a: int| 0 <= a < open@.len() implies node_ok(start, from, #[trigger] open@[a]) by {
            if a < old(open)@.len() {
                assert(open@[a] == old(open)@[a]);
            }
        }
        assert forall|a: int, b: int| 0 <= a < b < open@.len() implies #[trigger] open@[a].pos@
            != #[trigger] open@[b].pos@ by {
            assert(open@[a] == old(open)@[a]);
            if b < old(open)@.len() {
                assert(open@[b] == old(open)@[b]);
            }
        }
    }
}

} // verus!
