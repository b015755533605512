//! Room templates drawn in text.
//!
//! Each character of the text stands for the cell in its column and line,
//! both counted from zero.  A blank leaves the cell undefined.
//!
//! | glyph | cell |
//! |-------|------|
//! | `_` | reserves space around the room and is no terrain |
//! | `%` | blank that cannot be dug |
//! | `#` | wall; at the edge of the template part of the shell, never dug |
//! | `.` | ground |
//! | `>` `<` | way out, way in |
//! | `~` | water |
//! | `I` | pillar |
//! | `+` | door; at the edge of the template a shell wall that can be dug |
//! | `a` | ground with a monster waiting |

use vstd::prelude::*;
use vstd::string::StrSliceExecFns;
use crate::cell::{CellView, EntitySpawn, MapCell, VaultKind};
use crate::geom::{pt_add, CellVector, Dir6, Pt};
use crate::grid::Grid;
use crate::rooms::MapError;
use crate::terrain::Terrain;

verus! {

/// The line of the character with index `i` of `s`.
pub open spec fn row_of(s: Seq<char>, i: int) -> int
    decreases i,
{
    if i <= 0 {
        0
    } else if s[i - 1] == '\n' {
        row_of(s, i - 1) + 1
    } else {
        row_of(s, i - 1)
    }
}

/// The column of the character with index `i` of `s`.
pub open spec fn col_of(s: Seq<char>, i: int) -> int
    decreases i,
{
    if i <= 0 {
        0
    } else if s[i - 1] == '\n' {
        0
    } else {
        col_of(s, i - 1) + 1
    }
}

/// Whether `c` stands for a cell: it is no blank and ends no line.
pub open spec fn is_glyph(c: char) -> bool {
    c != '\n' && c != ' '
}

/// Whether the character with index `i` of `s` stands for the cell at `p`.
pub open spec fn glyph_index(s: Seq<char>, p: Pt, i: int) -> bool {
    0 <= i < s.len() && is_glyph(s[i]) && col_of(s, i) == p.0 && row_of(s, i) == p.1
}

/// Whether the text `s` defines the cell at `p`.
pub open spec fn defined(s: Seq<char>, p: Pt) -> bool {
    exists|i: int| glyph_index(s, p, i)
}

/// The glyph of `s` for the cell at `p`.
pub open spec fn glyph_at(s: Seq<char>, p: Pt) -> char {
    s[choose|i: int| glyph_index(s, p, i)]
}

/// Whether the cell at `p` is at the edge of the template `s`: one of its
/// six neighbours is undefined.
pub open spec fn at_edge(s: Seq<char>, p: Pt) -> bool {
    exists|k: int| 0 <= k < 6 && !defined(s, pt_add(p, #[trigger] Dir6::nth(k).delta()))
}

/// A cell of a room's protected space with terrain `t`.
pub open spec fn inner(t: Terrain) -> CellView {
    CellView { terrain: t, spawns: Seq::empty(), can_dig: true, vault_kind: Some(VaultKind::Interior) }
}

/// The cell that glyph `c` stands for, at the edge of the template or
/// within; `None` for a glyph that stands for nothing.
pub open spec fn glyph_cell(c: char, edge: bool) -> Option<CellView> {
    if c == '_' {
        Some(CellView::of_terrain(Terrain::Empty))
    } else if c == '%' {
        Some(CellView { can_dig: false, ..inner(Terrain::Empty) })
    } else if c == '#' {
        if edge {
            Some(
                CellView {
                    can_dig: false,
                    vault_kind: Some(VaultKind::Border),
                    ..inner(Terrain::Wall)
                },
            )
        } else {
            Some(inner(Terrain::Wall))
        }
    } else if c == '.' {
        Some(inner(Terrain::Ground))
    } else if c == '>' {
        Some(inner(Terrain::Exit))
    } else if c == '<' {
        Some(inner(Terrain::Entrance))
    } else if c == '~' {
        Some(inner(Terrain::Water))
    } else if c == 'I' {
        Some(inner(Terrain::Pillar))
    } else if c == '+' {
        if edge {
            Some(CellView { vault_kind: Some(VaultKind::Border), ..inner(Terrain::Wall) })
        } else {
            Some(inner(Terrain::Door))
        }
    } else if c == 'a' {
        Some(CellView { spawns: seq![EntitySpawn::Dreg], ..inner(Terrain::Ground) })
    } else {
        None
    }
}

/// Whether the character with index `i` of `s` is a glyph that stands for
/// nothing.
pub open spec fn bad_index(s: Seq<char>, i: int) -> bool {
    0 <= i < s.len() && is_glyph(s[i]) && glyph_cell(s[i], false) is None
}

/// Characters come in the order of their lines, and within a line in the
/// order of their columns.
pub proof fn lemma_text_order(s: Seq<char>, i: int, j: int)
    requires
        0 <= i <= j <= s.len(),
    ensures
        0 <= row_of(s, i) <= row_of(s, j) <= j,
        0 <= col_of(s, j) <= j,
        row_of(s, i) == row_of(s, j) ==> col_of(s, j) == col_of(s, i) + (j - i),
        row_of(s, i) == row_of(s, j) ==> forall|k: int| i <= k < j ==> s[k] != '\n',
    decreases j,
{
    if j > 0 {
        if i < j {
            lemma_text_order(s, i, j - 1);
        } else {
            lemma_text_order(s, 0, j - 1);
            lemma_text_order(s, j - 1, j - 1);
        }
        lemma_text_order(s, 0, j - 1);
    }
}

/// No two characters stand for one cell.
pub proof fn lemma_glyph_unique(s: Seq<char>, p: Pt, i: int, j: int)
    requires
        glyph_index(s, p, i),
        glyph_index(s, p, j),
    ensures
        i == j,
{
    if i < j {
        lemma_text_order(s, i, j);
    } else if j < i {
        lemma_text_order(s, j, i);
    }
}

fn make_cell(c: char, edge: bool) -> (r: Option<MapCell>)
    ensures
        match r {
            Some(cell) => glyph_cell(c, edge) == Some(cell@),
            None => glyph_cell(c, edge) is None,
        },
        r is None <==> glyph_cell(c, false) is None,
{
    let mut cell = MapCell::default().interior();
    if c == '_' {
        cell = MapCell::new_bumper();
    } else if c == '%' {
        cell.can_dig = false;
    } else if c == '#' {
        cell.terrain = Terrain::Wall;
        if edge {
            cell.can_dig = false;
            cell.vault_kind = Some(VaultKind::Border);
        }
    } else if c == '.' {
        cell.terrain = Terrain::Ground;
    } else if c == '>' {
        cell.terrain = Terrain::Exit;
    } else if c == '<' {
        cell.terrain = Terrain::Entrance;
    } else if c == '~' {
        cell.terrain = Terrain::Water;
    } else if c == 'I' {
        cell.terrain = Terrain::Pillar;
    } else if c == '+' {
        if edge {
            cell.terrain = Terrain::Wall;
            cell.vault_kind = Some(VaultKind::Border);
        } else {
            cell.terrain = Terrain::Door;
        }
    } else if c == 'a' {
        cell.terrain = Terrain::Ground;
        cell.spawns.push(EntitySpawn::Dreg);
        assert(cell.spawns@ =~= seq![EntitySpawn::Dreg]);
    } else {
        return None;
    }
    Some(cell)
}

/// The glyphs of a text with their cells, and a grid that defines just
/// those cells.
struct Glyphs {
    list: Vec<(CellVector, char)>,
    marks: Grid,
}

/// Whether `g` holds the glyphs among the first `n` characters of `s`, in
/// their order, `from` giving the index of each.
spec fn glyphs_upto(s: Seq<char>, g: Glyphs, from: Seq<int>, n: int) -> bool {
    &&& from.len() == g.list@.len()
    &&& forall|k: int|
        0 <= k < from.len() ==> 0 <= #[trigger] from[k] < n && glyph_index(s, g.list@[k].0@, from[k])
            && g.list@[k].1 == s[from[k]]
    &&& forall|j: int|
        0 <= j < n && is_glyph(#[trigger] s[j]) ==> exists|k: int| 0 <= k < from.len() && from[k] == j
    &&& forall|p: Pt|
        g.marks@.contains_key(p) <==> exists|j: int| 0 <= j < n && #[trigger] glyph_index(s, p, j)
    &&& forall|j: int| 0 <= j < n ==> !bad_index(s, j)
}

/// Reads the glyphs of `text`, up to the first that stands for nothing.
fn read_glyphs(text: &str) -> (r: Result<(Glyphs, Ghost<Seq<int>>), MapError>)
    requires
        text@.len() <= i32::MAX,
    ensures
        match r {
            Ok((g, from)) => glyphs_upto(text@, g, from@, text@.len() as int),
            Err(e) => exists|i: int|
                #[trigger] bad_index(text@, i) && (forall|j: int| 0 <= j < i ==> !bad_index(text@, j))
                    && e == (MapError::UnknownGlyph {
                    glyph: text@[i],
                    x: col_of(text@, i) as i32,
                    y: row_of(text@, i) as i32,
                }),
        },
{
    let ghost s = text@;
    let n = text.unicode_len();
    let mut g = Glyphs { list: Vec::new(), marks: Grid::new() };
    let ghost mut from: Seq<int> = Seq::empty();
    let mut col: i32 = 0;
    let mut row: i32 = 0;
    let mut i: usize = 0;
    while i < n
        invariant
            s == text@,
            n == s.len(),
            n <= i32::MAX,
            i <= n,
            col == col_of(s, i as int),
            row == row_of(s, i as int),
            glyphs_upto(s, g, from, i as int),
        decreases n - i,
    {
        let c = text.get_char(i);
        proof {
            lemma_text_order(s, i as int, i as int + 1);
            lemma_text_order(s, 0, i as int + 1);
            lemma_text_order(s, 0, i as int);
        }
        let ghost before = g;
        let ghost from_before = from;
        if c == '\n' {
            row += 1;
            col = 0;
        } else {
            if c != ' ' {
                let pos = CellVector { x: col, y: row };
                if make_cell(c, false).is_none() {
                    assert(bad_index(s, i as int));
                    return Err(MapError::UnknownGlyph { glyph: c, x: col, y: row });
                }
                g.marks.insert(pos, MapCell::default());
                g.list.push((pos, c));
                proof {
                    from = from.push(i as int);
                    assert(glyph_index(s, pos@, i as int));
                }
            }
            col += 1;
        }
        proof {
            let m = i as int + 1;
            assert forall|k: int| 0 <= k < from.len() implies 0 <= #[trigger] from[k] < m
                && glyph_index(s, g.list@[k].0@, from[k]) && g.list@[k].1 == s[from[k]] by {
                if k < from_before.len() {
                    assert(from[k] == from_before[k]);
                    assert(g.list@[k] == before.list@[k]);
                }
            }
            assert forall|j: int| 0 <= j < m && is_glyph(#[trigger] s[j]) implies exists|k: int|
                0 <= k < from.len() && from[k] == j by {
                if j < i {
                    let k = choose|k: int| 0 <= k < from_before.len() && from_before[k] == j;
                    assert(from[k] == j);
                } else {
                    assert(from[from.len() - 1] == j);
                }
            }
            assert forall|p: Pt|
                g.marks@.contains_key(p) <==> exists|j: int|
                    0 <= j < m && #[trigger] glyph_index(s, p, j) by {
                if g.marks@.contains_key(p) {
                    if before.marks@.contains_key(p) {
                        let j = choose|j: int| 0 <= j < i && #[trigger] glyph_index(s, p, j);
                        assert(0 <= j < m && glyph_index(s, p, j));
                    } else {
                        assert(glyph_index(s, p, i as int));
                    }
                }
                if exists|j: int| 0 <= j < m && #[trigger] glyph_index(s, p, j) {
                    let j = choose|j: int| 0 <= j < m && #[trigger] glyph_index(s, p, j);
                    if j < i {
                        assert(before.marks@.contains_key(p));
                    }
                }
            }
            assert forall|j: int| 0 <= j < m implies !bad_index(s, j) by {
                if j < i {
                    assert(!bad_index(s, j));
                }
            }
        }
        i += 1;
    }
    Ok((g, Ghost(from)))
}

impl Grid {
    fn edge_of(&self, pos: CellVector, Ghost(s): Ghost<Seq<char>>) -> (b: bool)
        requires
            forall|p: Pt| self@.contains_key(p) <==> defined(s, p),
        ensures
            b == at_edge(s, pos@),
    {
        let mut k: usize = 0;
        while k < 6
            invariant
                k <= 6,
                forall|p: Pt| self@.contains_key(p) <==> defined(s, p),
                forall|j: int|
                    0 <= j < k ==> defined(s, pt_add(pos@, #[trigger] Dir6::nth(j).delta())),
            decreases 6 - k,
        {
            let d = Dir6::from_index(k).to_v2();
            assert(d@ == Dir6::nth(k as int).delta());
            if self.get_near(pos, d.x, d.y).is_none() {
                return true;
            }
            k += 1;
        }
        false
    }

    /// Builds a room template from its drawing in text.
    ///
    /// The first glyph that stands for nothing ends the reading: the
    /// error names it and says where it stands.
    pub fn new_vault(textmap: &str) -> (r: Result<Grid, MapError>)
        requires
            textmap@.len() <= i32::MAX,
        ensures
            match r {
                Ok(g) => {
                    &&& forall|i: int| !bad_index(textmap@, i)
                    &&& forall|p: Pt| g@.contains_key(p) <==> defined(textmap@, p)
                    &&& forall|p: Pt|
                        defined(textmap@, p) ==> Some(#[trigger] g@[p]) == glyph_cell(
                            glyph_at(textmap@, p),
                            at_edge(textmap@, p),
                        )
                },
                Err(e) => exists|i: int|
                    #[trigger] bad_index(textmap@, i) && (forall|j: int|
                        0 <= j < i ==> !bad_index(textmap@, j)) && e == (MapError::UnknownGlyph {
                        glyph: textmap@[i],
                        x: col_of(textmap@, i) as i32,
                        y: row_of(textmap@, i) as i32,
                    }),
            },
    {
        let ghost s = textmap@;
        let (glyphs, from) = match read_glyphs(textmap) {
            Ok(found) => found,
            Err(e) => {
                return Err(e);
            },
        };
        let ghost from = from@;
        proof {
            assert forall|p: Pt| glyphs.marks@.contains_key(p) <==> defined(s, p) by {
                if glyphs.marks@.contains_key(p) {
                    let j = choose|j: int| 0 <= j < s.len() && #[trigger] glyph_index(s, p, j);
                }
                if defined(s, p) {
                    let j = choose|j: int| glyph_index(s, p, j);
                    assert(0 <= j < s.len() && glyph_index(s, p, j));
                }
            }
        }
        let mut ret = Grid::new();
        let mut k: usize = 0;
        while k < glyphs.list.len()
            invariant
                k <= glyphs.list@.len(),
                s == textmap@,
                glyphs_upto(s, glyphs, from, s.len() as int),
                forall|p: Pt| glyphs.marks@.contains_key(p) <==> defined(s, p),
                forall|p: Pt|
                    ret@.contains_key(p) <==> exists|j: int|
                        0 <= j < k && (#[trigger] glyphs.list@[j]).0@ == p,
                forall|p: Pt|
                    ret@.contains_key(p) ==> Some(#[trigger] ret@[p]) == glyph_cell(
                        glyph_at(s, p),
                        at_edge(s, p),
                    ),
            decreases glyphs.list@.len() - k,
        {
            let (pos, c) = glyphs.list[k];
            let ghost before = ret@;
            proof {
                assert(glyph_index(s, pos@, from[k as int]));
                assert(defined(s, pos@));
                let j = choose|j: int| glyph_index(s, pos@, j);
                lemma_glyph_unique(s, pos@, j, from[k as int]);
                assert(glyph_at(s, pos@) == c);
            }
            let edge = glyphs.marks.edge_of(pos, Ghost(s));
            match make_cell(c, edge) {
                Some(cell) => {
                    ret.insert(pos, cell);
                },
                None => {
                    proof {
                        assert(bad_index(s, from[k as int]));
                        assert(false);
                    }
                },
            }
            proof {
                assert forall|p: Pt|
                    ret@.contains_key(p) <==> exists|j: int|
                        0 <= j < k + 1 && (#[trigger] glyphs.list@[j]).0@ == p by {
                    if ret@.contains_key(p) {
                        if p == pos@ {
                            assert(glyphs.list@[k as int].0@ == p);
                        } else {
                            let j = choose|j: int| 0 <= j < k && (#[trigger] glyphs.list@[j]).0@ == p;
                            assert(0 <= j < k + 1 && glyphs.list@[j].0@ == p);
                        }
                    }
                    if exists|j: int| 0 <= j < k + 1 && (#[trigger] glyphs.list@[j]).0@ == p {
                        let j = choose|j: int| 0 <= j < k + 1 && (#[trigger] glyphs.list@[j]).0@ == p;
                        if j < k {
                            assert(before.contains_key(p));
                        }
                    }
                }
            }
            k += 1;
        }
        proof {
            assert forall|p: Pt| ret@.contains_key(p) <==> defined(s, p) by {
                if ret@.contains_key(p) {
                    let j = choose|j: int| 0 <= j < k && (#[trigger] glyphs.list@[j]).0@ == p;
                    assert(glyph_index(s, glyphs.list@[j].0@, from[j]));
                }
                if defined(s, p) {
                    let i = choose|i: int| glyph_index(s, p, i);
                    assert(is_glyph(s[i]));
                    let j = choose|j: int| 0 <= j < from.len() && from[j] == i;
                    assert(glyph_index(s, glyphs.list@[j].0@, from[j]));
                    lemma_text_order(s, 0, i);
                    assert(glyphs.list@[j].0@ == p);
                }
            }
        }
        Ok(ret)
    }
}

} // verus!
