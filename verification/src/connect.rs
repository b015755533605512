//! Making a level one connected whole.
//!
//! The cells to walk on fall into connected parts.  A part sealed inside a
//! room is meant to be out of reach and is left alone; any two other parts
//! are joined by a tunnel, until at most one is left.

use vstd::prelude::*;
use rand::XorShiftRng;
use crate::cell::CellView;
use crate::geom::{pt_add, pt_lt, CellVector, Dir6, Pt};
use crate::grid::Grid;
use crate::order::{ascending, copy_list, pts};
use crate::query::{wanted_set, Want};
use crate::regions::{
    component, connected, covered, is_component, is_path, lemma_component_is_component,
    lemma_components_equal, lemma_connected_mono, lemma_parts_disjoint, parts_of, separate_regions,
};
use crate::rng::sample_one;
use crate::tunnel::{
    dug, end_world, kept, lemma_tunnelled, trail, tunnel_found, tunnelled, walkable_at,
};

verus! {

/// The points of `world` that a walker can stand on.
pub open spec fn floor(world: Map<Pt, CellView>) -> Set<Pt> {
    wanted_set(world, Want::Floor)
}

/// Whether `p` is a defined cell outside every room.
pub open spec fn vault_exterior(world: Map<Pt, CellView>, p: Pt) -> bool {
    world.contains_key(p) && world[p].vault_kind is None
}

/// Whether the cell at `p` is shut in: it is no cell outside a room, and
/// each of its six neighbours is undefined or a room's cell that cannot be
/// dug.
pub open spec fn shut_in(world: Map<Pt, CellView>, p: Pt) -> bool {
    &&& !vault_exterior(world, p)
    &&& forall|k: int|
        0 <= k < 6 ==> {
            let q = pt_add(p, #[trigger] Dir6::nth(k).delta());
            !vault_exterior(world, q) && (world.contains_key(q) ==> !world[q].can_dig)
        }
}

/// Whether `part` is a sealed pocket of a room: every one of its cells is
/// shut in.
pub open spec fn interior_bubble(world: Map<Pt, CellView>, part: Set<Pt>) -> bool {
    forall|p: Pt| part.contains(p) ==> shut_in(world, p)
}

/// Whether `world` is one connected whole: any two cells to walk on that
/// lie in no sealed pocket are connected over cells to walk on.
pub open spec fn joined(world: Map<Pt, CellView>) -> bool {
    forall|a: Pt, b: Pt|
        #![trigger floor(world).contains(a), floor(world).contains(b)]
        floor(world).contains(a) && floor(world).contains(b) && !interior_bubble(
            world,
            component(floor(world), a),
        ) && !interior_bubble(world, component(floor(world), b)) ==> connected(floor(world), a, b)
}

/// Whether `parts` is what the analysis of `world` gives: the connected
/// parts of its floor that are no sealed pockets, each once.
pub open spec fn regions_of(world: Map<Pt, CellView>, parts: Seq<Vec<CellVector>>) -> bool {
    &&& parts_of(floor(world), parts)
    &&& forall|r: int| 0 <= r < parts.len() ==> !interior_bubble(world, pts(#[trigger] parts[r]@))
    &&& forall|p: Pt|
        floor(world).contains(p) && !interior_bubble(world, component(floor(world), p))
            ==> #[trigger] covered(parts, p)
}

/// Whether a tunnel from `src` to `dst` may be the next to be dug in
/// `world`: `src` is a cell of the first part that the analysis finds, and
/// `dst` one of the second.
pub open spec fn drawable(world: Map<Pt, CellView>, src: Pt, dst: Pt) -> bool {
    exists|parts: Seq<Vec<CellVector>>|
        #[trigger] regions_of(world, parts) && parts.len() >= 2 && pts(parts[0]@).contains(src)
            && pts(parts[1]@).contains(dst)
}

/// Whether `next` is `world` with the next tunnel dug.
pub open spec fn one_join(world: Map<Pt, CellView>, next: Map<Pt, CellView>) -> bool {
    exists|src: Pt, dst: Pt|
        drawable(world, src, dst) && #[trigger] tunnel_found(world, src, dst) == Some(next)
}

/// Whether no tunnel is found for a pair of cells that may be drawn next in
/// `world`.
pub open spec fn stuck(world: Map<Pt, CellView>) -> bool {
    exists|src: Pt, dst: Pt|
        drawable(world, src, dst) && #[trigger] tunnel_found(world, src, dst) is None
}

/// Whether each world of `chain` but the first is the one before it with
/// the next tunnel dug.
pub open spec fn joins(chain: Seq<Map<Pt, CellView>>) -> bool {
    &&& chain.len() > 0
    &&& forall|i: int| 0 <= i < chain.len() - 1 ==> one_join(#[trigger] chain[i], chain[i + 1])
}

/// What the analysis of a world gives is settled by the world: two lists
/// of its parts are the same list.
pub proof fn lemma_regions_unique(
    world: Map<Pt, CellView>,
    a: Seq<Vec<CellVector>>,
    b: Seq<Vec<CellVector>>,
)
    requires
        regions_of(world, a),
        regions_of(world, b),
    ensures
        a.len() == b.len(),
        forall|i: int| 0 <= i < a.len() ==> (#[trigger] a[i])@ == b[i]@,
{
    let w = floor(world);
    assert forall|i: int| 0 <= i < a.len() implies covered(b, (#[trigger] a[i])@[0]@) by {
        let x = a[i]@[0]@;
        crate::regions::lemma_first_in(w, a, i);
        lemma_component_is_component(w, x);
        lemma_components_equal(w, pts(a[i]@), component(w, x), x);
        assert(!interior_bubble(world, pts(a[i]@)));
    }
    assert forall|i: int| 0 <= i < b.len() implies covered(a, (#[trigger] b[i])@[0]@) by {
        let x = b[i]@[0]@;
        crate::regions::lemma_first_in(w, b, i);
        lemma_component_is_component(w, x);
        lemma_components_equal(w, pts(b[i]@), component(w, x), x);
        assert(!interior_bubble(world, pts(b[i]@)));
    }
    crate::regions::lemma_lists_unique(w, a, b);
}

/// In a world that is one connected whole the analysis finds at most one
/// part, and one where any cell to walk on lies outside the sealed pockets.
pub proof fn lemma_joined_one_region(world: Map<Pt, CellView>, parts: Seq<Vec<CellVector>>)
    requires
        joined(world),
        regions_of(world, parts),
    ensures
        parts.len() <= 1,
        (exists|p: Pt|
            floor(world).contains(p) && !interior_bubble(world, component(floor(world), p)))
            ==> parts.len() == 1,
{
    if parts.len() >= 2 {
        lemma_two_regions_apart(world, parts);
    }
    if exists|p: Pt|
        floor(world).contains(p) && !interior_bubble(world, component(floor(world), p)) {
        let p = choose|p: Pt|
            floor(world).contains(p) && !interior_bubble(world, component(floor(world), p));
        assert(covered(parts, p));
    }
}

/// A world in which the analysis finds at most one part is one connected
/// whole.
pub proof fn lemma_one_region_joined(world: Map<Pt, CellView>, parts: Seq<Vec<CellVector>>)
    requires
        regions_of(world, parts),
        parts.len() <= 1,
    ensures
        joined(world),
{
    let w = floor(world);
    assert forall|a: Pt, b: Pt|
        #![trigger floor(world).contains(a), floor(world).contains(b)]
        w.contains(a) && w.contains(b) && !interior_bubble(world, component(w, a))
            && !interior_bubble(world, component(w, b)) implies connected(w, a, b) by {
        assert(covered(parts, a));
        assert(covered(parts, b));
        let ra = choose|r: int| 0 <= r < parts.len() && pts(#[trigger] parts[r]@).contains(a);
        let rb = choose|r: int| 0 <= r < parts.len() && pts(#[trigger] parts[r]@).contains(b);
        assert(ra == 0 && rb == 0);
        assert(is_component(w, pts(parts[0]@)));
    }
}

/// The first cells of the first two parts that the analysis finds are not
/// connected, and the world is not one connected whole.
pub proof fn lemma_two_regions_apart(world: Map<Pt, CellView>, parts: Seq<Vec<CellVector>>)
    requires
        regions_of(world, parts),
        parts.len() >= 2,
    ensures
        !joined(world),
        forall|a: Pt, b: Pt|
            pts(parts[0]@).contains(a) && pts(parts[1]@).contains(b) ==> !connected(
                floor(world),
                a,
                b,
            ),
{
    let w = floor(world);
    let x = pts(parts[0]@);
    let y = pts(parts[1]@);
    assert forall|a: Pt, b: Pt| x.contains(a) && y.contains(b) implies !connected(w, a, b) by {
        if connected(w, a, b) {
            assert(is_component(w, x));
            assert(x.contains(b));
            lemma_parts_disjoint(w, parts, 0, 1, b);
        }
    }
    let a = parts[0]@[0]@;
    let b = parts[1]@[0]@;
    assert(x.contains(a));
    assert(y.contains(b));
    assert(is_component(w, x) && is_component(w, y));
    assert(w.contains(a)) by {
        assert(connected(w, a, a));
        crate::regions::lemma_connected_in(w, a, a);
    }
    assert(w.contains(b)) by {
        assert(connected(w, b, b));
        crate::regions::lemma_connected_in(w, b, b);
    }
    lemma_component_is_component(w, a);
    lemma_component_is_component(w, b);
    lemma_components_equal(w, x, component(w, a), a);
    lemma_components_equal(w, y, component(w, b), b);
    assert(!interior_bubble(world, pts(parts[0]@)));
    assert(!interior_bubble(world, pts(parts[1]@)));
    assert(floor(world).contains(a) && floor(world).contains(b));
}

/// A tunnel between two cells that were not connected opens at least one
/// cell, and closes none.
pub proof fn lemma_tunnel_progress(
    world: Map<Pt, CellView>,
    src: Pt,
    dst: Pt,
    dirs: Seq<Dir6>,
    after: Map<Pt, CellView>,
)
    requires
        world.dom().finite(),
        floor(world).contains(src),
        !connected(floor(world), src, dst),
        tunnelled(world, src, dirs) == Some((after, dst)),
    ensures
        after.dom() == world.dom(),
        floor(world).subset_of(floor(after)),
        floor(after).finite(),
        floor(world).len() < floor(after).len(),
        floor(after).len() <= world.dom().len(),
        connected(floor(after), src, dst),
{
    lemma_tunnelled(world, src, dirs);
    assert(end_world(world, src, dirs) == after);
    let t = trail(src, dirs);
    assert(floor(world).subset_of(floor(after))) by {
        assert forall|p: Pt| floor(world).contains(p) implies floor(after).contains(p) by {
            assert(walkable_at(world, p));
            assert(walkable_at(after, p));
        }
    }
    assert(is_path(floor(after), t)) by {
        assert forall|i: int| 0 <= i < t.len() implies floor(after).contains(#[trigger] t[i]) by {
            if i == 0 {
                assert(walkable_at(world, src));
                assert(walkable_at(after, src));
            } else {
                assert(walkable_at(after, t[i]));
            }
        }
    }
    assert(t[0] == src && t.last() == dst);
    assert(connected(floor(after), src, dst));
    assert(floor(after).subset_of(after.dom()));
    vstd::set_lib::lemma_len_subset(floor(after), after.dom());
    if floor(after).subset_of(floor(world)) {
        lemma_connected_mono(floor(after), floor(world), src, dst);
    }
    let x = choose|x: Pt| floor(after).contains(x) && !floor(world).contains(x);
    floor(world).lemma_subset_not_in_lt(floor(after), x);
}

impl Grid {
    fn is_shut_in(&self, p: CellVector) -> (b: bool)
        ensures
            b == shut_in(self@, p@),
    {
        match self.get(p) {
            Some(c) => {
                if c.vault_kind.is_none() {
                    return false;
                }
            },
            None => {},
        }
        let mut k: usize = 0;
        while k < 6
            invariant
                k <= 6,
                !vault_exterior(self@, p@),
                forall|j: int|
                    0 <= j < k ==> {
                        let q = pt_add(p@, #[trigger] Dir6::nth(j).delta());
                        !vault_exterior(self@, q) && (self@.contains_key(q) ==> !self@[q].can_dig)
                    },
            decreases 6 - k,
        {
            let d = Dir6::from_index(k).to_v2();
            assert(d@ == Dir6::nth(k as int).delta());
            match self.get_near(p, d.x, d.y) {
                Some(c) => {
                    if c.vault_kind.is_none() || c.can_dig {
                        return false;
                    }
                },
                None => {},
            }
            k += 1;
        }
        true
    }

    /// Whether the cells of `points` form a sealed pocket of a room: a part
    /// that lies wholly within a room and is walled in by what cannot be
    /// dug.  Such a part is meant to be out of reach.
    pub fn is_interior_bubble(&self, points: &Vec<CellVector>) -> (b: bool)
        ensures
            b == interior_bubble(self@, pts(points@)),
    {
        let mut i: usize = 0;
        while i < points.len()
            invariant
                i <= points.len(),
                forall|k: int| 0 <= k < i ==> shut_in(self@, #[trigger] points@[k]@),
            decreases points.len() - i,
        {
            if !self.is_shut_in(points[i]) {
                assert(pts(points@).contains(points@[i as int]@));
                return false;
            }
            i += 1;
        }
        proof {
            assert forall|p: Pt| pts(points@).contains(p) implies shut_in(self@, p) by {
                let k = choose|k: int| 0 <= k < points@.len() && #[trigger] points@[k]@ == p;
            }
        }
        true
    }

    /// The connected parts of the cells to walk on, without the sealed
    /// pockets.  Each part lists its cells in the fixed order, and the
    /// parts come in the order of their first cells.
    pub fn open_regions(&self) -> (out: Vec<Vec<CellVector>>)
        ensures
            regions_of(self@, out@),
    {
        let floors = self.select(Want::Floor);
        let all = separate_regions(&floors);
        let ghost w = floor(self@);
        let mut out: Vec<Vec<CellVector>> = Vec::new();
        let ghost mut from: Seq<int> = Seq::empty();
        let mut i: usize = 0;
        while i < all.len()
            invariant
                i <= all.len(),
                w == floor(self@),
                parts_of(w, all@),
                from.len() == out@.len(),
                forall|k: int|
                    0 <= k < out@.len() ==> 0 <= #[trigger] from[k] < i && all@[from[k]]@
                        == out@[k]@ && !interior_bubble(self@, pts(out@[k]@)),
                forall|a: int, b: int| 0 <= a < b < out@.len() ==> #[trigger] from[a] < #[trigger] from[b],
                forall|r: int|
                    0 <= r < i && !interior_bubble(self@, pts(#[trigger] all@[r]@)) ==> exists|k: int|
                        0 <= k < out@.len() && from[k] == r,
            decreases all.len() - i,
        {
            if !self.is_interior_bubble(&all[i]) {
                let part = copy_list(&all[i]);
                let ghost before = out@;
                let ghost from_before = from;
                out.push(part);
                proof {
                    from = from.push(i as int);
                    assert forall|k: int| 0 <= k < out@.len() implies 0 <= #[trigger] from[k] < i + 1
                        && all@[from[k]]@ == out@[k]@ && !interior_bubble(self@, pts(out@[k]@)) by {
                        if k < before.len() {
                            assert(out@[k] == before[k]);
                            assert(from[k] == from_before[k]);
                        }
                    }
                    assert forall|r: int|
                        0 <= r < i + 1 && !interior_bubble(
                            self@,
                            pts(#[trigger] all@[r]@),
                        ) implies exists|k: int| 0 <= k < out@.len() && from[k] == r by {
                        if r < i {
                            let k = choose|k: int| 0 <= k < before.len() && from_before[k] == r;
                            assert(from[k] == r);
                        } else {
                            assert(from[before.len() as int] == r);
                        }
                    }
                }
            }
            i += 1;
        }
        proof {
            assert(parts_of(w, out@)) by {
                assert forall|r: int| 0 <= r < out@.len() implies ascending(#[trigger] out@[r]@)
                    && out@[r]@.len() > 0 && is_component(w, pts(out@[r]@)) by {
                    assert(all@[from[r]]@ == out@[r]@);
                }
                assert forall|a: int, b: int| 0 <= a < b < out@.len() implies pt_lt(
                    #[trigger] out@[a]@[0]@,
                    #[trigger] out@[b]@[0]@,
                ) by {
                    assert(from[a] < from[b]);
                    assert(all@[from[a]]@ == out@[a]@ && all@[from[b]]@ == out@[b]@);
                    assert(pt_lt(all@[from[a]]@[0]@, all@[from[b]]@[0]@));
                }
            }
            assert forall|r: int| 0 <= r < out@.len() implies !interior_bubble(
                self@,
                pts(#[trigger] out@[r]@),
            ) by {
                assert(0 <= from[r] < i);
            }
            assert forall|p: Pt|
                w.contains(p) && !interior_bubble(self@, component(w, p)) implies #[trigger] covered(
                out@,
                p,
            ) by {
                assert(pts(floors@).contains(p));
                assert(covered(all@, p));
                let r = choose|r: int| 0 <= r < all@.len() && pts(#[trigger] all@[r]@).contains(p);
                lemma_component_is_component(w, p);
                lemma_components_equal(w, pts(all@[r]@), component(w, p), p);
                let k = choose|k: int| 0 <= k < out@.len() && from[k] == r;
                assert(pts(out@[k]@).contains(p));
            }
        }
        out
    }

    /// Joins the parts of the level with tunnels, and returns the joined
    /// level; the grid itself is not changed.
    ///
    /// As long as two parts are left, a cell is drawn from each of the first
    /// two and a tunnel is dug from one to the other.  The answer is `None`
    /// as soon as no tunnel is found.  Which cells are drawn is left to
    /// chance; what is dug between them is not.
    pub fn join_disjoint_regions(&mut self, rng: &mut XorShiftRng) -> (r: Option<Grid>)
        ensures
            final(self)@ == old(self)@,
            r matches Some(g) ==> joined(g@) && g@.dom() == old(self)@.dom() && floor(
                old(self)@,
            ).subset_of(floor(g@)) && kept(old(self)@, g@),
            joined(old(self)@) ==> (r matches Some(g) && g@ == old(self)@),
            r matches Some(g) ==> exists|chain: Seq<Map<Pt, CellView>>|
                #[trigger] joins(chain) && chain[0] == old(self)@ && chain.last() == g@,
            r is None ==> exists|chain: Seq<Map<Pt, CellView>>|
                #[trigger] joins(chain) && chain[0] == old(self)@ && stuck(chain.last()),
    {
        let mut ret = self.duplicate();
        let ghost mut chain: Seq<Map<Pt, CellView>> = seq![self@];
        proof {
            self.lemma_dom();
            assert(chain[0] == self@);
        }
        loop
            invariant
                self@ == old(self)@,
                joins(chain),
                chain[0] == self@,
                chain.last() == ret@,
                ret@.dom() == self@.dom(),
                self@.dom().finite(),
                floor(self@).subset_of(floor(ret@)),
                kept(self@, ret@),
                joined(self@) ==> ret@ == self@,
            ensures
                joined(ret@),
                joins(chain),
                chain[0] == self@,
                chain.last() == ret@,
                kept(self@, ret@),
                ret@.dom() == self@.dom(),
                self@ == old(self)@,
                floor(self@).subset_of(floor(ret@)),
                joined(self@) ==> ret@ == self@,
            decreases ret@.dom().len() - floor(ret@).len(),
        {
            let regions = ret.open_regions();
            if regions.len() < 2 {
                proof {
                    lemma_one_region_joined(ret@, regions@);
                }
                break ;
            }
            let src = sample_one(rng, &regions[0]);
            let dst = sample_one(rng, &regions[1]);
            proof {
                lemma_two_regions_apart(ret@, regions@);
                let i1 = choose|i: int| 0 <= i < regions@[0]@.len() && regions@[0]@[i] == src;
                assert(regions@[0]@[i1]@ == src@);
                let i2 = choose|i: int| 0 <= i < regions@[1]@.len() && regions@[1]@[i] == dst;
                assert(regions@[1]@[i2]@ == dst@);
                assert(pts(regions@[0]@).contains(src@));
                assert(pts(regions@[1]@).contains(dst@));
                assert(is_component(floor(ret@), pts(regions@[0]@)));
                assert(connected(floor(ret@), src@, src@));
                crate::regions::lemma_connected_in(floor(ret@), src@, src@);
                assert(walkable_at(ret@, src@));
                assert(dug(ret@, src@) == ret@);
                assert(regions_of(ret@, regions@));
                assert(drawable(ret@, src@, dst@));
            }
            match ret.find_tunnel(src, dst) {
                Some(connected_grid) => {
                    proof {
                        let dirs = choose|dirs: Seq<Dir6>|
                            dirs.len() > 0 && #[trigger] tunnelled(dug(ret@, src@), src@, dirs)
                                == Some((connected_grid@, dst@));
                        lemma_tunnel_progress(ret@, src@, dst@, dirs, connected_grid@);
                        vstd::set_lib::lemma_len_subset(floor(ret@), ret@.dom());
                        assert forall|x: Pt|
                            self@.contains_key(x) && (self@[x].interior() || !self@[x].can_dig)
                                implies connected_grid@.contains_key(x) && connected_grid@[x]
                            == self@[x] by {
                            assert(ret@.contains_key(x) && ret@[x] == self@[x]);
                            assert(connected_grid@.contains_key(x) && connected_grid@[x] == ret@[x]);
                        }
                        assert(tunnel_found(ret@, src@, dst@) == Some(connected_grid@));
                        assert(one_join(ret@, connected_grid@));
                        let longer = chain.push(connected_grid@);
                        assert forall|i: int| 0 <= i < longer.len() - 1 implies one_join(
                            #[trigger] longer[i],
                            longer[i + 1],
                        ) by {
                            if i < chain.len() - 1 {
                                assert(longer[i] == chain[i] && longer[i + 1] == chain[i + 1]);
                            }
                        }
                        chain = longer;
                    }
                    ret = connected_grid;
                },
                None => {
                    proof {
                        assert(tunnel_found(ret@, src@, dst@) is None);
                        assert(stuck(ret@));
                        assert(joins(chain) && chain[0] == old(self)@ && stuck(chain.last()));
                    }
                    return None;
                },
            }
        }
        Some(ret)
    }
}

} // verus!
