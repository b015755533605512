//! Sequences of cell addresses in the fixed order of points.
//!
//! Every query that lists cells answers in this order, so that what a
//! caller sees depends on what a grid holds and on nothing else.

use vstd::prelude::*;
use crate::geom::{pt_lt, CellVector, Pt};

verus! {

/// The points that the addresses of `s` stand for.
pub open spec fn pts(s: Seq<CellVector>) -> Set<Pt> {
    Set::new(|p: Pt| exists|i: int| 0 <= i < s.len() && #[trigger] s[i]@ == p)
}

/// Whether `s` lists its addresses in strictly rising order: by `x`, then
/// by `y`, none twice.
pub open spec fn ascending(s: Seq<CellVector>) -> bool {
    forall|i: int, j: int| 0 <= i < j < s.len() ==> pt_lt(#[trigger] s[i]@, #[trigger] s[j]@)
}

/// A rising list is fixed by the set of points it lists: two such lists
/// of the same points are the same list.
pub proof fn lemma_ascending_unique(a: Seq<CellVector>, b: Seq<CellVector>)
    requires
        ascending(a),
        ascending(b),
        pts(a) == pts(b),
    ensures
        a == b,
    decreases a.len(),
{
    if a.len() == 0 {
        if b.len() > 0 {
            assert(pts(b).contains(b[0]@));
            assert(pts(a).contains(b[0]@));
        }
        assert(a =~= b);
    } else {
        assert(pts(a).contains(a[0]@));
        assert(pts(b).contains(a[0]@));
        assert(b.len() > 0);
        assert(pts(b).contains(b[0]@));
        assert(pts(a).contains(b[0]@));
        let i = choose|i: int| 0 <= i < a.len() && #[trigger] a[i]@ == b[0]@;
        let j = choose|j: int| 0 <= j < b.len() && #[trigger] b[j]@ == a[0]@;
        if i > 0 {
            assert(pt_lt(a[0]@, a[i]@));
            if j > 0 {
                assert(pt_lt(b[0]@, b[j]@));
            }
        }
        assert(a[0]@ == b[0]@);
        assert(a[0] == b[0]);
        let a1 = a.drop_first();
        let b1 = b.drop_first();
        assert(ascending(a1)) by {
            assert forall|i: int, j: int| 0 <= i < j < a1.len() implies pt_lt(
                #[trigger] a1[i]@,
                #[trigger] a1[j]@,
            ) by {
                assert(a1[i] == a[i + 1] && a1[j] == a[j + 1]);
            }
        }
        assert(ascending(b1)) by {
            assert forall|i: int, j: int| 0 <= i < j < b1.len() implies pt_lt(
                #[trigger] b1[i]@,
                #[trigger] b1[j]@,
            ) by {
                assert(b1[i] == b[i + 1] && b1[j] == b[j + 1]);
            }
        }
        assert(pts(a1) =~= pts(b1)) by {
            assert forall|p: Pt| pts(a1).contains(p) implies pts(b1).contains(p) by {
                let i = choose|i: int| 0 <= i < a1.len() && #[trigger] a1[i]@ == p;
                assert(a1[i] == a[i + 1]);
                assert(pt_lt(a[0]@, a[i + 1]@));
                assert(pts(a).contains(p));
                assert(pts(b).contains(p));
                let j = choose|j: int| 0 <= j < b.len() && #[trigger] b[j]@ == p;
                assert(j != 0);
                assert(b1[j - 1] == b[j]);
            }
            assert forall|p: Pt| pts(b1).contains(p) implies pts(a1).contains(p) by {
                let i = choose|i: int| 0 <= i < b1.len() && #[trigger] b1[i]@ == p;
                assert(b1[i] == b[i + 1]);
                assert(pt_lt(b[0]@, b[i + 1]@));
                assert(pts(b).contains(p));
                assert(pts(a).contains(p));
                let j = choose|j: int| 0 <= j < a.len() && #[trigger] a[j]@ == p;
                assert(j != 0);
                assert(a1[j - 1] == a[j]);
            }
        }
        lemma_ascending_unique(a1, b1);
        assert(a =~= b) by {
            assert(a.len() == b.len());
            assert forall|k: int| 0 <= k < a.len() implies a[k] == b[k] by {
                if k > 0 {
                    assert(a1[k - 1] == a[k]);
                    assert(b1[k - 1] == b[k]);
                }
            }
        }
    }
}

/// Puts `v` into the rising list `list`, at its place.
pub fn insert_ascending(list: &mut Vec<CellVector>, v: CellVector)
    requires
        ascending(old(list)@),
        !pts(old(list)@).contains(v@),
    ensures
        ascending(final(list)@),
        pts(final(list)@) == pts(old(list)@).insert(v@),
        final(list)@.len() == old(list)@.len() + 1,
{
    let mut i: usize = 0;
    while i < list.len() && list[i].precedes(v)
        invariant
            i <= list.len(),
            list@ == old(list)@,
            forall|k: int| 0 <= k < i ==> pt_lt(#[trigger] list@[k]@, v@),
        decreases list.len() - i,
    {
        i += 1;
    }
    proof {
        if i < list.len() {
            assert(!pt_lt(list@[i as int]@, v@));
            assert(pts(list@).contains(list@[i as int]@));
            assert(list@[i as int]@ != v@);
            assert(pt_lt(v@, list@[i as int]@));
            assert forall|k: int| i <= k < list@.len() implies pt_lt(v@, #[trigger] list@[k]@) by {
                if k > i {
                    assert(pt_lt(list@[i as int]@, list@[k]@));
                }
            }
        }
    }
    let ghost before = list@;
    list.insert(i, v);
    proof {
        let after = list@;
        assert forall|a: int, b: int| 0 <= a < b < after.len() implies pt_lt(
            #[trigger] after[a]@,
            #[trigger] after[b]@,
        ) by {
            if a < i && b < i {
                assert(after[a] == before[a] && after[b] == before[b]);
            } else if a < i && b == i {
                assert(after[a] == before[a]);
            } else if a < i && b > i {
                assert(after[a] == before[a] && after[b] == before[b - 1]);
            } else if a == i {
                assert(after[b] == before[b - 1]);
            } else {
                assert(after[a] == before[a - 1] && after[b] == before[b - 1]);
            }
        }
        assert(pts(after) =~= pts(before).insert(v@)) by {
            assert forall|p: Pt| pts(after).contains(p) implies pts(before).insert(v@).contains(
                p,
            ) by {
                let k = choose|k: int| 0 <= k < after.len() && #[trigger] after[k]@ == p;
                if k < i {
                    assert(after[k] == before[k]);
                } else if k > i {
                    assert(after[k] == before[k - 1]);
                }
            }
            assert forall|p: Pt| pts(before).insert(v@).contains(p) implies pts(after).contains(
                p,
            ) by {
                if p == v@ {
                    assert(after[i as int]@ == p);
                } else {
                    let k = choose|k: int| 0 <= k < before.len() && #[trigger] before[k]@ == p;
                    if k < i {
                        assert(after[k] == before[k]);
                    } else {
                        assert(after[k + 1] == before[k]);
                    }
                }
            }
        }
    }
}

/// Whether the rising list `list` holds `v`.
pub fn holds(list: &Vec<CellVector>, v: CellVector) -> (b: bool)
    ensures
        b == pts(list@).contains(v@),
{
    let mut i: usize = 0;
    while i < list.len()
        invariant
            i <= list.len(),
            forall|k: int| 0 <= k < i ==> #[trigger] list@[k]@ != v@,
        decreases list.len() - i,
    {
        if list[i] == v {
            assert(list@[i as int]@ == v@);
            return true;
        }
        i += 1;
    }
    false
}

/// Whether no point occurs twice in `s`.
pub open spec fn distinct(s: Seq<CellVector>) -> bool {
    forall|i: int, j: int| 0 <= i < j < s.len() ==> #[trigger] s[i]@ != #[trigger] s[j]@
}

/// One more address in a list is one more point in its set, if it was not
/// there.
pub proof fn lemma_pts_push(list: Seq<CellVector>, v: CellVector)
    requires
        pts(list).finite(),
        pts(list).len() == list.len(),
        !pts(list).contains(v@),
    ensures
        pts(list.push(v)) == pts(list).insert(v@),
        pts(list.push(v)).finite(),
        pts(list.push(v)).len() == list.len() + 1,
{
    let more = list.push(v);
    assert(pts(more) =~= pts(list).insert(v@)) by {
        assert forall|x: Pt| pts(more).contains(x) implies pts(list).insert(v@).contains(x) by {
            let i = choose|i: int| 0 <= i < more.len() && #[trigger] more[i]@ == x;
            if i < list.len() {
                assert(more[i] == list[i]);
            }
        }
        assert forall|x: Pt| pts(list).insert(v@).contains(x) implies pts(more).contains(x) by {
            if x == v@ {
                assert(more[list.len() as int]@ == x);
            } else {
                let i = choose|i: int| 0 <= i < list.len() && #[trigger] list[i]@ == x;
                assert(more[i] == list[i]);
            }
        }
    }
}

/// A list without repeats stands for as many points as it is long.
pub proof fn lemma_distinct_len(s: Seq<CellVector>)
    requires
        distinct(s),
    ensures
        pts(s).finite(),
        pts(s).len() == s.len(),
    decreases s.len(),
{
    if s.len() == 0 {
        assert(pts(s) =~= Set::<Pt>::empty());
    } else {
        let head = s.drop_last();
        assert(distinct(head)) by {
            assert forall|i: int, j: int| 0 <= i < j < head.len() implies #[trigger] head[i]@
                != #[trigger] head[j]@ by {
                assert(head[i] == s[i] && head[j] == s[j]);
            }
        }
        lemma_distinct_len(head);
        if pts(head).contains(s.last()@) {
            let i = choose|i: int| 0 <= i < head.len() && #[trigger] head[i]@ == s.last()@;
            assert(head[i] == s[i]);
            assert(s[i]@ != s[s.len() - 1]@);
        }
        lemma_pts_push(head, s.last());
        assert(head.push(s.last()) =~= s);
    }
}

/// A rising list has no repeats.
pub proof fn lemma_ascending_distinct(s: Seq<CellVector>)
    requires
        ascending(s),
    ensures
        distinct(s),
        pts(s).finite(),
        pts(s).len() == s.len(),
{
    assert(distinct(s)) by {
        assert forall|i: int, j: int| 0 <= i < j < s.len() implies #[trigger] s[i]@ != #[trigger] s[j]@ by {
            assert(pt_lt(s[i]@, s[j]@));
        }
    }
    lemma_distinct_len(s);
}

/// The addresses of `list` in the fixed order, each once.
pub fn sorted(list: &Vec<CellVector>) -> (out: Vec<CellVector>)
    ensures
        ascending(out@),
        pts(out@) == pts(list@),
{
    let mut out: Vec<CellVector> = Vec::new();
    let mut i: usize = 0;
    assert(pts(out@) =~= pts(list@.take(0)));
    while i < list.len()
        invariant
            i <= list.len(),
            ascending(out@),
            pts(out@) == pts(list@.take(i as int)),
        decreases list.len() - i,
    {
        let v = list[i];
        let ghost before = pts(out@);
        if !holds(&out, v) {
            insert_ascending(&mut out, v);
        }
        proof {
            let a = list@.take(i as int);
            let b = list@.take(i + 1);
            assert(pts(b) =~= pts(a).insert(v@)) by {
                assert forall|x: Pt| pts(b).contains(x) implies pts(a).insert(v@).contains(x) by {
                    let k = choose|k: int| 0 <= k < b.len() && #[trigger] b[k]@ == x;
                    if k < i {
                        assert(a[k] == b[k]);
                    }
                }
                assert forall|x: Pt| pts(a).insert(v@).contains(x) implies pts(b).contains(x) by {
                    if x == v@ {
                        assert(b[i as int]@ == x);
                    } else {
                        let k = choose|k: int| 0 <= k < a.len() && #[trigger] a[k]@ == x;
                        assert(a[k] == b[k]);
                    }
                }
            }
            assert(pts(out@) =~= pts(b));
        }
        i += 1;
    }
    assert(list@.take(i as int) =~= list@);
    out
}

/// The addresses of the rising list `list` whose flag is set, in the same
/// order.
pub fn keep(list: &Vec<CellVector>, flags: &Vec<bool>) -> (out: Vec<CellVector>)
    requires
        ascending(list@),
        flags@.len() == list@.len(),
    ensures
        ascending(out@),
        forall|p: Pt|
            pts(out@).contains(p) <==> exists|i: int|
                0 <= i < list@.len() && #[trigger] list@[i]@ == p && flags@[i],
{
    let mut out: Vec<CellVector> = Vec::new();
    let ghost mut from: Seq<int> = Seq::empty();
    let mut i: usize = 0;
    while i < list.len()
        invariant
            i <= list.len(),
            ascending(list@),
            flags@.len() == list@.len(),
            from.len() == out@.len(),
            forall|k: int|
                0 <= k < out@.len() ==> 0 <= #[trigger] from[k] < i && list@[from[k]] == out@[k]
                    && flags@[from[k]],
            forall|a: int, b: int| 0 <= a < b < out@.len() ==> #[trigger] from[a] < #[trigger] from[b],
            forall|j: int| 0 <= j < i && flags@[j] ==> pts(out@).contains(#[trigger] list@[j]@),
        decreases list.len() - i,
    {
        if flags[i] {
            let ghost before = out@;
            out.push(list[i]);
            proof {
                from = from.push(i as int);
                assert forall|j: int| 0 <= j < i + 1 && flags@[j] implies pts(out@).contains(
                    #[trigger] list@[j]@,
                ) by {
                    if j < i {
                        let k = choose|k: int| 0 <= k < before.len() && #[trigger] before[k]@ == list@[j]@;
                        assert(out@[k] == before[k]);
                    } else {
                        assert(out@[before.len() as int]@ == list@[j]@);
                    }
                }
            }
        }
        i += 1;
    }
    proof {
        assert forall|a: int, b: int| 0 <= a < b < out@.len() implies pt_lt(
            #[trigger] out@[a]@,
            #[trigger] out@[b]@,
        ) by {
            assert(from[a] < from[b]);
            assert(pt_lt(list@[from[a]]@, list@[from[b]]@));
        }
        assert forall|p: Pt|
            pts(out@).contains(p) <==> exists|i: int|
                0 <= i < list@.len() && #[trigger] list@[i]@ == p && flags@[i] by {
            if pts(out@).contains(p) {
                let k = choose|k: int| 0 <= k < out@.len() && #[trigger] out@[k]@ == p;
                assert(list@[from[k]]@ == p);
            }
        }
    }
    out
}

/// A copy of `list`.
pub fn copy_list(list: &Vec<CellVector>) -> (out: Vec<CellVector>)
    ensures
        out@ == list@,
{
    let mut out: Vec<CellVector> = Vec::new();
    let mut i: usize = 0;
    while i < list.len()
        invariant
            i <= list.len(),
            out@ == list@.take(i as int),
        decreases list.len() - i,
    {
        out.push(list[i]);
        i += 1;
        assert(out@ =~= list@.take(i as int));
    }
    assert(list@.take(i as int) =~= list@);
    out
}

/// Takes the address with index `i` out of the rising list `list`.
pub fn take_at(list: &mut Vec<CellVector>, i: usize) -> (v: CellVector)
    requires
        ascending(old(list)@),
        i < old(list)@.len(),
    ensures
        v == old(list)@[i as int],
        ascending(final(list)@),
        pts(final(list)@) == pts(old(list)@).remove(v@),
        final(list)@.len() == old(list)@.len() - 1,
{
    let ghost before = list@;
    let v = list.remove(i);
    proof {
        let after = list@;
        assert forall|a: int, b: int| 0 <= a < b < after.len() implies pt_lt(
            #[trigger] after[a]@,
            #[trigger] after[b]@,
        ) by {
            let a0 = if a < i { a } else { a + 1 };
            let b0 = if b < i { b } else { b + 1 };
            assert(after[a] == before[a0] && after[b] == before[b0]);
        }
        assert(pts(after) =~= pts(before).remove(v@)) by {
            assert forall|p: Pt| pts(after).contains(p) implies pts(before).remove(v@).contains(
                p,
            ) by {
                let k = choose|k: int| 0 <= k < after.len() && #[trigger] after[k]@ == p;
                let k0 = if k < i { k } else { k + 1 };
                assert(after[k] == before[k0]);
                assert(pts(before).contains(before[k0]@));
                if k0 < i {
                    assert(pt_lt(before[k0]@, before[i as int]@));
                } else {
                    assert(pt_lt(before[i as int]@, before[k0]@));
                }
            }
            assert forall|p: Pt| pts(before).remove(v@).contains(p) implies pts(after).contains(
                p,
            ) by {
                let k = choose|k: int| 0 <= k < before.len() && #[trigger] before[k]@ == p;
                if k < i {
                    assert(after[k] == before[k]);
                } else {
                    assert(after[k - 1] == before[k]);
                }
            }
        }
    }
    v
}

} // verus!
