//! Connected parts of a set of cells.
//!
//! Two cells belong together when a chain of hex-adjacent cells of the set
//! leads from one to the other.  What comes out depends on the set alone:
//! each part lists its cells in the fixed order, and the parts come in the
//! order of their first cells.

use vstd::prelude::*;
use crate::geom::{hex_adjacent, lemma_hex_adjacent_symmetric, pt_add, pt_lt, CellVector, Dir6, Pt};
use crate::order::{
    ascending, distinct, holds, lemma_ascending_distinct, lemma_distinct_len, lemma_pts_push, pts,
    sorted,
};

verus! {

/// Whether `path` is a chain of hex-adjacent points of `points`.
pub open spec fn is_path(points: Set<Pt>, path: Seq<Pt>) -> bool {
    &&& path.len() > 0
    &&& forall|i: int| 0 <= i < path.len() ==> points.contains(#[trigger] path[i])
    &&& forall|i: int| 0 <= i < path.len() - 1 ==> hex_adjacent(#[trigger] path[i], path[i + 1])
}

/// Whether a chain of hex-adjacent points of `points` leads from `a` to `b`.
pub open spec fn connected(points: Set<Pt>, a: Pt, b: Pt) -> bool {
    exists|path: Seq<Pt>| #[trigger] is_path(points, path) && path[0] == a && path.last() == b
}

/// The points of `points` that a chain leads to from `seed`.
pub open spec fn component(points: Set<Pt>, seed: Pt) -> Set<Pt> {
    Set::new(|q: Pt| connected(points, seed, q))
}

/// Whether `part` is one whole connected part of `points`: it is not
/// empty, and from each of its points chains lead to its points and to no
/// others.
pub open spec fn is_component(points: Set<Pt>, part: Set<Pt>) -> bool {
    &&& exists|a: Pt| part.contains(a)
    &&& forall|a: Pt, b: Pt| part.contains(a) ==> (part.contains(b) <==> connected(points, a, b))
}

/// Both ends of a chain are points of the set.
pub proof fn lemma_connected_in(points: Set<Pt>, a: Pt, b: Pt)
    requires
        connected(points, a, b),
    ensures
        points.contains(a),
        points.contains(b),
{
    let path = choose|path: Seq<Pt>| #[trigger] is_path(points, path) && path[0] == a && path.last() == b;
    assert(points.contains(path[0]));
    assert(points.contains(path[path.len() - 1]));
}

/// Every point of the set is connected to itself.
pub proof fn lemma_connected_refl(points: Set<Pt>, a: Pt)
    requires
        points.contains(a),
    ensures
        connected(points, a, a),
{
    let path = seq![a];
    assert(is_path(points, path));
    assert(path[0] == a && path.last() == a);
}

/// A chain goes on by one adjacent point of the set.
pub proof fn lemma_connected_step(points: Set<Pt>, a: Pt, b: Pt, c: Pt)
    requires
        connected(points, a, b),
        hex_adjacent(b, c),
        points.contains(c),
    ensures
        connected(points, a, c),
{
    let path = choose|path: Seq<Pt>| #[trigger] is_path(points, path) && path[0] == a && path.last() == b;
    let more = path.push(c);
    assert(is_path(points, more)) by {
        assert forall|i: int| 0 <= i < more.len() implies points.contains(#[trigger] more[i]) by {
            if i < path.len() {
                assert(more[i] == path[i]);
            }
        }
        assert forall|i: int| 0 <= i < more.len() - 1 implies hex_adjacent(
            #[trigger] more[i],
            more[i + 1],
        ) by {
            if i < path.len() - 1 {
                assert(more[i] == path[i] && more[i + 1] == path[i + 1]);
            }
        }
    }
    assert(more[0] == a && more.last() == c);
}

/// A chain can be walked backwards.
pub proof fn lemma_connected_sym(points: Set<Pt>, a: Pt, b: Pt)
    requires
        connected(points, a, b),
    ensures
        connected(points, b, a),
{
    let path = choose|path: Seq<Pt>| #[trigger] is_path(points, path) && path[0] == a && path.last() == b;
    let n = path.len() as int;
    let back = Seq::new(path.len(), |i: int| path[n - 1 - i]);
    assert(is_path(points, back)) by {
        assert forall|i: int| 0 <= i < back.len() implies points.contains(#[trigger] back[i]) by {
            assert(back[i] == path[n - 1 - i]);
        }
        assert forall|i: int| 0 <= i < back.len() - 1 implies hex_adjacent(
            #[trigger] back[i],
            back[i + 1],
        ) by {
            let j = n - 2 - i;
            assert(hex_adjacent(path[j], path[j + 1]));
            lemma_hex_adjacent_symmetric(path[j], path[j + 1]);
        }
    }
    assert(back[0] == b && back.last() == a);
}

/// Two chains that meet make one.
pub proof fn lemma_connected_trans(points: Set<Pt>, a: Pt, b: Pt, c: Pt)
    requires
        connected(points, a, b),
        connected(points, b, c),
    ensures
        connected(points, a, c),
{
    let first = choose|path: Seq<Pt>| #[trigger] is_path(points, path) && path[0] == a && path.last() == b;
    let second = choose|path: Seq<Pt>| #[trigger] is_path(points, path) && path[0] == b && path.last() == c;
    lemma_join(points, a, first, second, second.len() as int);
}

proof fn lemma_join(points: Set<Pt>, a: Pt, first: Seq<Pt>, second: Seq<Pt>, n: int)
    requires
        is_path(points, first),
        is_path(points, second),
        first[0] == a,
        first.last() == second[0],
        1 <= n <= second.len(),
    ensures
        connected(points, a, second[n - 1]),
    decreases n,
{
    if n == 1 {
        assert(is_path(points, first) && first[0] == a && first.last() == second[0]);
    } else {
        lemma_join(points, a, first, second, n - 1);
        assert(hex_adjacent(second[n - 2], second[n - 2 + 1]));
        assert(points.contains(second[n - 1]));
        lemma_connected_step(points, a, second[n - 2], second[n - 1]);
    }
}

/// A chain within a set is a chain within any larger set.
pub proof fn lemma_connected_mono(small: Set<Pt>, large: Set<Pt>, a: Pt, b: Pt)
    requires
        connected(small, a, b),
        small.subset_of(large),
    ensures
        connected(large, a, b),
{
    let path = choose|path: Seq<Pt>| #[trigger] is_path(small, path) && path[0] == a && path.last() == b;
    assert(is_path(large, path)) by {
        assert forall|i: int| 0 <= i < path.len() implies large.contains(#[trigger] path[i]) by {
            assert(small.contains(path[i]));
        }
    }
}

/// What a chain leads to from any point of the set is one whole connected
/// part of it.
pub proof fn lemma_component_is_component(points: Set<Pt>, seed: Pt)
    requires
        points.contains(seed),
    ensures
        is_component(points, component(points, seed)),
        component(points, seed).contains(seed),
        component(points, seed).subset_of(points),
{
    let part = component(points, seed);
    lemma_connected_refl(points, seed);
    assert(part.contains(seed));
    assert forall|a: Pt, b: Pt| part.contains(a) implies (part.contains(b) <==> connected(
        points,
        a,
        b,
    )) by {
        lemma_connected_sym(points, seed, a);
        if part.contains(b) {
            lemma_connected_trans(points, a, seed, b);
        }
        if connected(points, a, b) {
            lemma_connected_trans(points, seed, a, b);
        }
    }
    assert forall|q: Pt| part.contains(q) implies points.contains(q) by {
        lemma_connected_in(points, seed, q);
    }
}

/// Two whole parts of one set that share a point are the same part.
pub proof fn lemma_components_equal(points: Set<Pt>, x: Set<Pt>, y: Set<Pt>, p: Pt)
    requires
        is_component(points, x),
        is_component(points, y),
        x.contains(p),
        y.contains(p),
    ensures
        x == y,
{
    assert(x =~= y) by {
        assert forall|q: Pt| x.contains(q) <==> y.contains(q) by {
            assert(x.contains(q) <==> connected(points, p, q));
            assert(y.contains(q) <==> connected(points, p, q));
        }
    }
}

/// Whether every point of `seen` outside `edge` has all its neighbours in
/// `points` among `seen`.
pub open spec fn settled(points: Set<Pt>, seen: Set<Pt>, edge: Set<Pt>) -> bool {
    forall|v: Pt, k: int|
        #![trigger seen.contains(v), Dir6::nth(k)]
        seen.contains(v) && !edge.contains(v) && 0 <= k < 6 && points.contains(
            pt_add(v, Dir6::nth(k).delta()),
        ) ==> seen.contains(pt_add(v, Dir6::nth(k).delta()))
}

proof fn lemma_settled_reaches(points: Set<Pt>, seen: Set<Pt>, path: Seq<Pt>, i: int)
    requires
        settled(points, seen, Set::empty()),
        is_path(points, path),
        seen.contains(path[0]),
        0 <= i < path.len(),
    ensures
        seen.contains(path[i]),
    decreases i,
{
    if i > 0 {
        lemma_settled_reaches(points, seen, path, i - 1);
        let v = path[i - 1];
        assert(hex_adjacent(path[i - 1], path[i - 1 + 1]));
        let k = choose|k: int| 0 <= k < 6 && path[i] == pt_add(v, #[trigger] Dir6::nth(k).delta());
        assert(seen.contains(v) && Dir6::nth(k) == Dir6::nth(k));
        assert(points.contains(path[i]));
    }
}

/// The cells of `points` that are connected to `seed`, in the fixed order:
/// none where `seed` is no cell of `points`.
pub fn flood_fill(points: &Vec<CellVector>, seed: CellVector) -> (out: Vec<CellVector>)
    ensures
        ascending(out@),
        pts(out@) == component(pts(points@), seed@),
{
    let ghost all = pts(points@);
    let mut seen: Vec<CellVector> = Vec::new();
    let mut edge: Vec<CellVector> = Vec::new();
    let unique = sorted(points);
    proof {
        lemma_ascending_distinct(unique@);
    }
    if !holds(&unique, seed) {
        proof {
            assert(pts(seen@) =~= component(all, seed@)) by {
                assert forall|q: Pt| !component(all, seed@).contains(q) by {
                    if connected(all, seed@, q) {
                        lemma_connected_in(all, seed@, q);
                    }
                }
            }
        }
        return seen;
    }
    seen.push(seed);
    edge.push(seed);
    proof {
        lemma_connected_refl(all, seed@);
        assert(seen@[0]@ == seed@);
        assert(edge@[0]@ == seed@);
        assert forall|x: Pt| pts(seen@).contains(x) implies x == seed@ by {
            let i = choose|i: int| 0 <= i < seen@.len() && #[trigger] seen@[i]@ == x;
        }
    }
    while edge.len() > 0
        invariant
            all == pts(points@),
            pts(unique@) == all,
            all.finite(),
            all.len() == unique@.len(),
            distinct(seen@),
            pts(seen@).contains(seed@),
            forall|x: Pt| pts(seen@).contains(x) ==> connected(all, seed@, x),
            forall|x: Pt| pts(edge@).contains(x) ==> pts(seen@).contains(x),
            settled(all, pts(seen@), pts(edge@)),
        decreases unique@.len() - seen@.len(), edge@.len(),
    {
        let ghost edge_before = edge@;
        let ghost seen_before = seen@;
        let pos = edge.pop().unwrap();
        proof {
            assert(edge_before[edge_before.len() - 1] == pos);
            assert(pts(edge_before).contains(pos@));
            assert forall|x: Pt| pts(edge@).contains(x) implies pts(edge_before).contains(x) by {
                let i = choose|i: int| 0 <= i < edge@.len() && #[trigger] edge@[i]@ == x;
                assert(edge_before[i] == edge@[i]);
            }
            assert forall|x: Pt| pts(edge_before).contains(x) implies x == pos@ || pts(
                edge@,
            ).contains(x) by {
                let i = choose|i: int| 0 <= i < edge_before.len() && #[trigger] edge_before[i]@ == x;
                if i < edge@.len() {
                    assert(edge_before[i] == edge@[i]);
                }
            }
            lemma_bound(all, seen@);
        }
        let mut k: usize = 0;
        while k < 6
            invariant
                k <= 6,
                all == pts(points@),
                pts(unique@) == all,
                all.finite(),
                all.len() == unique@.len(),
                distinct(seen@),
                seen@.len() >= seen_before.len(),
                seen@.len() <= unique@.len(),
                edge@.len() >= edge_before.len() - 1,
                seen@.len() == seen_before.len() ==> edge@.len() == edge_before.len() - 1,
                pts(seen@).contains(seed@),
                pts(seen@).contains(pos@),
                forall|x: Pt| pts(seen@).contains(x) ==> connected(all, seed@, x),
                forall|x: Pt| pts(edge@).contains(x) ==> pts(seen@).contains(x),
                forall|v: Pt, j: int|
                    #![trigger pts(seen@).contains(v), Dir6::nth(j)]
                    pts(seen@).contains(v) && !pts(edge@).contains(v) && v != pos@ && 0 <= j < 6
                        && all.contains(pt_add(v, Dir6::nth(j).delta())) ==> pts(seen@).contains(
                        pt_add(v, Dir6::nth(j).delta()),
                    ),
                forall|j: int|
                    0 <= j < k && all.contains(pt_add(pos@, #[trigger] Dir6::nth(j).delta()))
                        ==> pts(seen@).contains(pt_add(pos@, Dir6::nth(j).delta())),
            decreases 6 - k,
        {
            let d = Dir6::from_index(k);
            assert(d == Dir6::nth(k as int));
            match pos.step(d) {
                Some(q) => {
                    if holds(&unique, q) && !holds(&seen, q) {
                        let ghost s0 = seen@;
                        let ghost e0 = edge@;
                        proof {
                            lemma_distinct_len(s0);
                            assert(hex_adjacent(pos@, q@));
                            lemma_connected_step(all, seed@, pos@, q@);
                        }
                        seen.push(q);
                        edge.push(q);
                        proof {
                            lemma_pts_push(s0, q);
                            assert(distinct(seen@)) by {
                                assert forall|i: int, j: int|
                                    0 <= i < j < seen@.len() implies #[trigger] seen@[i]@
                                    != #[trigger] seen@[j]@ by {
                                    assert(seen@[i] == s0[i]);
                                    if j < s0.len() {
                                        assert(seen@[j] == s0[j]);
                                    } else {
                                        assert(pts(s0).contains(s0[i]@));
                                    }
                                }
                            }
                            assert forall|x: Pt| pts(edge@).contains(x) implies pts(
                                seen@,
                            ).contains(x) by {
                                let i = choose|i: int| 0 <= i < edge@.len() && #[trigger] edge@[i]@ == x;
                                if i < e0.len() {
                                    assert(edge@[i] == e0[i]);
                                    assert(pts(e0).contains(x));
                                }
                            }
                            assert forall|x: Pt| pts(e0).contains(x) implies pts(edge@).contains(
                                x,
                            ) by {
                                let i = choose|i: int| 0 <= i < e0.len() && #[trigger] e0[i]@ == x;
                                assert(edge@[i] == e0[i]);
                            }
                            assert(edge@[e0.len() as int]@ == q@);
                            assert(pts(edge@).contains(q@));
                            lemma_bound(all, seen@);
                        }
                    }
                },
                None => {
                    proof {
                        if all.contains(pt_add(pos@, d.delta())) {
                            let i = choose|i: int|
                                0 <= i < points@.len() && #[trigger] points@[i]@ == pt_add(
                                    pos@,
                                    d.delta(),
                                );
                        }
                    }
                },
            }
            k += 1;
        }
        proof {
            assert(settled(all, pts(seen@), pts(edge@))) by {
                assert forall|v: Pt, j: int|
                    #![trigger pts(seen@).contains(v), Dir6::nth(j)]
                    pts(seen@).contains(v) && !pts(edge@).contains(v) && 0 <= j < 6 && all.contains(
                        pt_add(v, Dir6::nth(j).delta()),
                    ) implies pts(seen@).contains(pt_add(v, Dir6::nth(j).delta())) by {
                    if v == pos@ {
                        assert(all.contains(pt_add(pos@, Dir6::nth(j).delta())));
                    }
                }
            }
        }
    }
    proof {
        assert(pts(edge@) =~= Set::<Pt>::empty());
        assert(pts(seen@) =~= component(all, seed@)) by {
            assert forall|q: Pt| component(all, seed@).contains(q) implies pts(seen@).contains(
                q,
            ) by {
                let path = choose|path: Seq<Pt>|
                    #[trigger] is_path(all, path) && path[0] == seed@ && path.last() == q;
                lemma_settled_reaches(all, pts(seen@), path, path.len() - 1);
            }
        }
    }
    sorted(&seen)
}

/// Whether one of `parts` holds the point `p`.
pub open spec fn covered(parts: Seq<Vec<CellVector>>, p: Pt) -> bool {
    exists|r: int| 0 <= r < parts.len() && pts(#[trigger] parts[r]@).contains(p)
}

/// Whether `parts` lists connected parts of `points` as the analysis does:
/// each is one whole part with its cells in the fixed order, and the parts
/// come in the order of their first cells.
pub open spec fn parts_of(points: Set<Pt>, parts: Seq<Vec<CellVector>>) -> bool {
    &&& forall|r: int|
        0 <= r < parts.len() ==> ascending(#[trigger] parts[r]@) && parts[r]@.len() > 0
            && is_component(points, pts(parts[r]@))
    &&& forall|a: int, b: int|
        0 <= a < b < parts.len() ==> pt_lt(#[trigger] parts[a]@[0]@, #[trigger] parts[b]@[0]@)
}

fn in_any(parts: &Vec<Vec<CellVector>>, p: CellVector) -> (b: bool)
    ensures
        b == covered(parts@, p@),
{
    let mut r: usize = 0;
    while r < parts.len()
        invariant
            r <= parts.len(),
            forall|k: int| 0 <= k < r ==> !pts(#[trigger] parts@[k]@).contains(p@),
        decreases parts.len() - r,
    {
        if holds(&parts[r], p) {
            return true;
        }
        r += 1;
    }
    false
}

/// Splits a cloud of cells into its connected parts.
///
/// Every cell of `points` is in exactly one part.  Each part lists its
/// cells in the fixed order, and the parts come in the order of their first
/// cells, so the answer depends on which cells are given and not on how.
pub fn separate_regions(points: &Vec<CellVector>) -> (out: Vec<Vec<CellVector>>)
    ensures
        parts_of(pts(points@), out@),
        forall|p: Pt| pts(points@).contains(p) ==> covered(out@, p),
{
    let ghost all = pts(points@);
    let cells = sorted(points);
    let mut out: Vec<Vec<CellVector>> = Vec::new();
    let mut i: usize = 0;
    while i < cells.len()
        invariant
            i <= cells.len(),
            all == pts(points@),
            ascending(cells@),
            pts(cells@) == all,
            parts_of(all, out@),
            forall|j: int| 0 <= j < i ==> covered(out@, #[trigger] cells@[j]@),
            forall|r: int|
                0 <= r < out@.len() ==> exists|j: int| 0 <= j < i && cells@[j] == (#[trigger] out@[r])@[0],
        decreases cells.len() - i,
    {
        let p = cells[i];
        assert(pts(cells@).contains(p@));
        if !in_any(&out, p) {
            let region = flood_fill(&cells, p);
            let ghost before = out@;
            proof {
                lemma_component_is_component(all, p@);
                assert(pts(region@).contains(p@));
                let k = choose|k: int| 0 <= k < region@.len() && #[trigger] region@[k]@ == p@;
                if k > 0 {
                    let m = region@[0];
                    assert(pt_lt(m@, region@[k]@));
                    assert(pts(region@).contains(m@));
                    assert(connected(all, p@, m@));
                    lemma_connected_in(all, p@, m@);
                    assert(pts(cells@).contains(m@));
                    let j = choose|j: int| 0 <= j < cells@.len() && #[trigger] cells@[j]@ == m@;
                    if j > i {
                        assert(pt_lt(cells@[i as int]@, cells@[j]@));
                    }
                    assert(j < i);
                    assert(covered(before, cells@[j]@));
                    let r = choose|r: int| 0 <= r < before.len() && pts(#[trigger] before[r]@).contains(m@);
                    lemma_connected_sym(all, p@, m@);
                    assert(pts(before[r]@).contains(p@));
                    assert(false);
                }
                assert(region@[0] == p);
            }
            out.push(region);
            proof {
                assert forall|r: int| 0 <= r < out@.len() implies ascending(#[trigger] out@[r]@)
                    && out@[r]@.len() > 0 && is_component(all, pts(out@[r]@)) by {
                    if r < before.len() {
                        assert(out@[r] == before[r]);
                    }
                }
                assert forall|a: int, b: int| 0 <= a < b < out@.len() implies pt_lt(
                    #[trigger] out@[a]@[0]@,
                    #[trigger] out@[b]@[0]@,
                ) by {
                    assert(out@[a] == before[a]);
                    if b < before.len() {
                        assert(out@[b] == before[b]);
                    } else {
                        let j = choose|j: int| 0 <= j < i && cells@[j] == before[a]@[0];
                        assert(pt_lt(cells@[j]@, cells@[i as int]@));
                    }
                }
                assert forall|j: int| 0 <= j < i + 1 implies covered(out@, #[trigger] cells@[j]@) by {
                    if j < i {
                        let r = choose|r: int|
                            0 <= r < before.len() && pts(#[trigger] before[r]@).contains(
                                cells@[j]@,
                            );
                        assert(out@[r] == before[r]);
                    } else {
                        assert(pts(out@[before.len() as int]@).contains(p@));
                    }
                }
                assert forall|r: int| 0 <= r < out@.len() implies exists|j: int|
                    0 <= j < i + 1 && cells@[j] == (#[trigger] out@[r])@[0] by {
                    if r < before.len() {
                        assert(out@[r] == before[r]);
                        let j = choose|j: int| 0 <= j < i && cells@[j] == before[r]@[0];
                        assert(cells@[j] == out@[r]@[0]);
                    } else {
                        assert(cells@[i as int] == out@[r]@[0]);
                    }
                }
            }
        }
        i += 1;
    }
    proof {
        assert forall|p: Pt| all.contains(p) implies covered(out@, p) by {
            let j = choose|j: int| 0 <= j < cells@.len() && #[trigger] cells@[j]@ == p;
            assert(covered(out@, cells@[j]@));
        }
    }
    out
}

/// Two parts of one list that share a cell are the same entry.
pub proof fn lemma_parts_disjoint(points: Set<Pt>, parts: Seq<Vec<CellVector>>, a: int, b: int, p: Pt)
    requires
        parts_of(points, parts),
        0 <= a < parts.len(),
        0 <= b < parts.len(),
        pts(parts[a]@).contains(p),
        pts(parts[b]@).contains(p),
    ensures
        a == b,
{
    if a != b {
        lemma_components_equal(points, pts(parts[a]@), pts(parts[b]@), p);
        crate::order::lemma_ascending_unique(parts[a]@, parts[b]@);
        if a < b {
            assert(pt_lt(parts[a]@[0]@, parts[b]@[0]@));
        } else {
            assert(pt_lt(parts[b]@[0]@, parts[a]@[0]@));
        }
    }
}

/// The first cells of `parts`, in their order.
pub open spec fn firsts(parts: Seq<Vec<CellVector>>) -> Seq<CellVector> {
    Seq::new(parts.len(), |i: int| parts[i]@[0])
}

proof fn lemma_firsts_within(points: Set<Pt>, a: Seq<Vec<CellVector>>, b: Seq<Vec<CellVector>>, i: int)
    requires
        parts_of(points, a),
        parts_of(points, b),
        0 <= i < a.len(),
        covered(b, a[i]@[0]@),
    ensures
        exists|j: int| 0 <= j < b.len() && (#[trigger] b[j])@ == a[i]@,
{
    let x = a[i]@[0]@;
    assert(pts(a[i]@).contains(x));
    let j = choose|j: int| 0 <= j < b.len() && pts(#[trigger] b[j]@).contains(x);
    lemma_components_equal(points, pts(a[i]@), pts(b[j]@), x);
    crate::order::lemma_ascending_unique(a[i]@, b[j]@);
}

/// Two lists of parts of one set, each as the analysis gives them, are
/// the same list if each holds the first cells of the other.
pub proof fn lemma_lists_unique(points: Set<Pt>, a: Seq<Vec<CellVector>>, b: Seq<Vec<CellVector>>)
    requires
        parts_of(points, a),
        parts_of(points, b),
        forall|i: int| 0 <= i < a.len() ==> covered(b, (#[trigger] a[i])@[0]@),
        forall|i: int| 0 <= i < b.len() ==> covered(a, (#[trigger] b[i])@[0]@),
    ensures
        a.len() == b.len(),
        forall|i: int| 0 <= i < a.len() ==> (#[trigger] a[i])@ == b[i]@,
{
    let fa = firsts(a);
    let fb = firsts(b);
    assert(ascending(fa)) by {
        assert forall|i: int, j: int| 0 <= i < j < fa.len() implies pt_lt(
            #[trigger] fa[i]@,
            #[trigger] fa[j]@,
        ) by {
            assert(pt_lt(a[i]@[0]@, a[j]@[0]@));
        }
    }
    assert(ascending(fb)) by {
        assert forall|i: int, j: int| 0 <= i < j < fb.len() implies pt_lt(
            #[trigger] fb[i]@,
            #[trigger] fb[j]@,
        ) by {
            assert(pt_lt(b[i]@[0]@, b[j]@[0]@));
        }
    }
    assert(pts(fa) =~= pts(fb)) by {
        assert forall|x: Pt| pts(fa).contains(x) implies pts(fb).contains(x) by {
            let i = choose|i: int| 0 <= i < fa.len() && #[trigger] fa[i]@ == x;
            assert(covered(b, a[i]@[0]@));
            lemma_firsts_within(points, a, b, i);
            let j = choose|j: int| 0 <= j < b.len() && (#[trigger] b[j])@ == a[i]@;
            assert(fb[j]@ == x);
        }
        assert forall|x: Pt| pts(fb).contains(x) implies pts(fa).contains(x) by {
            let i = choose|i: int| 0 <= i < fb.len() && #[trigger] fb[i]@ == x;
            assert(covered(a, b[i]@[0]@));
            lemma_firsts_within(points, b, a, i);
            let j = choose|j: int| 0 <= j < a.len() && (#[trigger] a[j])@ == b[i]@;
            assert(fa[j]@ == x);
        }
    }
    crate::order::lemma_ascending_unique(fa, fb);
    assert(a.len() == b.len());
    assert forall|i: int| 0 <= i < a.len() implies (#[trigger] a[i])@ == b[i]@ by {
        assert(fa[i] == fb[i]);
        let x = a[i]@[0]@;
        assert(pts(a[i]@).contains(x));
        assert(b[i]@[0]@ == x);
        assert(pts(b[i]@).contains(x));
        lemma_components_equal(points, pts(a[i]@), pts(b[i]@), x);
        crate::order::lemma_ascending_unique(a[i]@, b[i]@);
    }
}

/// The first cell of a part is a point of the set.
pub proof fn lemma_first_in(points: Set<Pt>, parts: Seq<Vec<CellVector>>, i: int)
    requires
        parts_of(points, parts),
        0 <= i < parts.len(),
    ensures
        points.contains(parts[i]@[0]@),
        pts(parts[i]@).contains(parts[i]@[0]@),
{
    let x = parts[i]@[0]@;
    assert(pts(parts[i]@).contains(x));
    assert(is_component(points, pts(parts[i]@)));
    assert(connected(points, x, x));
    lemma_connected_in(points, x, x);
}

/// The parts of a set are settled by the set: two lists of all its parts,
/// each as the analysis gives them, are the same list.
pub proof fn lemma_parts_unique(points: Set<Pt>, a: Seq<Vec<CellVector>>, b: Seq<Vec<CellVector>>)
    requires
        parts_of(points, a),
        parts_of(points, b),
        forall|p: Pt| points.contains(p) ==> covered(a, p),
        forall|p: Pt| points.contains(p) ==> covered(b, p),
    ensures
        a.len() == b.len(),
        forall|i: int| 0 <= i < a.len() ==> (#[trigger] a[i])@ == b[i]@,
{
    assert forall|i: int| 0 <= i < a.len() implies covered(b, (#[trigger] a[i])@[0]@) by {
        lemma_first_in(points, a, i);
    }
    assert forall|i: int| 0 <= i < b.len() implies covered(a, (#[trigger] b[i])@[0]@) by {
        lemma_first_in(points, b, i);
    }
    lemma_lists_unique(points, a, b);
}

/// A list without repeats of points of a finite set is no longer than the
/// set is large.
proof fn lemma_bound(all: Set<Pt>, seen: Seq<CellVector>)
    requires
        all.finite(),
        distinct(seen),
        forall|x: Pt| pts(seen).contains(x) ==> all.contains(x),
    ensures
        seen.len() <= all.len(),
{
    lemma_distinct_len(seen);
    vstd::set_lib::lemma_len_subset(pts(seen), all);
}

} // verus!
