//! Reduction of a boolean collision grid to a small set of solid rectangles.
use vstd::prelude::*;

use crate::geom::{IRect, IVec2, URect, UVec2};

verus! {

/// A rectangle of solid level terrain, in cells relative to the grid's minimum corner.
#[derive(Clone, Copy, Debug, PartialEq, Eq, Structural)]
pub struct LevelCollider(pub URect);

/// A horizontal run of solid cells in one row, both ends inclusive.
pub type Strip = (i32, i32);

/// A dense row-major boolean grid over a rectangle of cells, `y` increasing row by row.
pub struct LevelCollisionBuilder {
    bounds: IRect,
    size: IVec2,
    collision_grid: Vec<bool>,
}

/// The strip covers column `x`.
pub open spec fn strip_has(s: Strip, x: int) -> bool {
    s.0 <= x <= s.1
}

/// The rectangle spans the whole strip `s` in row `y`.
pub open spec fn rect_spans(r: IRect, y: int, s: Strip) -> bool {
    r.min.x <= s.0 && s.1 < r.max.x && r.min.y <= y < r.max.y
}

/// The strips share no column.
pub open spec fn strips_apart(a: Strip, b: Strip) -> bool {
    a.1 < b.0 || b.1 < a.0
}

/// The strips of a row pairwise share no column.
pub open spec fn row_apart(v: Seq<Strip>) -> bool {
    forall|j1: int, j2: int|
        0 <= j1 < v.len() && 0 <= j2 < v.len() && j1 != j2 ==> strips_apart(
            #[trigger] v[j1],
            #[trigger] v[j2],
        )
}

/// The strips of a row run left to right.
pub open spec fn row_sorted(v: Seq<Strip>) -> bool {
    forall|j1: int, j2: int| 0 <= j1 < j2 < v.len() ==> (#[trigger] v[j1]).1 < (#[trigger] v[j2]).0
}

/// The rectangles come in order of their first row, and right to left within a row.
pub open spec fn rects_ordered(rs: Seq<IRect>) -> bool {
    forall|i: int, j: int|
        0 <= i < j < rs.len() ==> (#[trigger] rs[i]).min.y <= (#[trigger] rs[j]).min.y && (rs[i].min.y
            == rs[j].min.y ==> rs[j].min.x < rs[i].min.x)
}

/// The colliders come in order of their first row, and right to left within a row.
pub open spec fn colliders_ordered(cs: Seq<LevelCollider>) -> bool {
    forall|i: int, j: int|
        0 <= i < j < cs.len() ==> (#[trigger] cs[i]).0.min.y <= (#[trigger] cs[j]).0.min.y && (
        cs[i].0.min.y == cs[j].0.min.y ==> cs[j].0.min.x < cs[i].0.min.x)
}

/// The rectangles share a cell.
pub open spec fn overlaps(a: IRect, b: IRect) -> bool {
    a.min.x < b.max.x && b.min.x < a.max.x && a.min.y < b.max.y && b.min.y < a.max.y
}

/// The rectangle shares a cell with the strip `s` stretched over rows `[y0, y1)`.
pub open spec fn meets_strip(a: IRect, s: Strip, y0: int, y1: int) -> bool {
    a.min.x <= s.1 && s.0 < a.max.x && a.min.y < y1 && y0 < a.max.y
}

/// The strip a rectangle spans in each of its rows.
pub open spec fn strip_of(r: IRect) -> Strip {
    (r.min.x, (r.max.x - 1) as i32)
}

/// No two rectangles of `rs` share a cell.
pub open spec fn pairwise_disjoint(rs: Seq<IRect>) -> bool {
    forall|i: int, j: int|
        0 <= i < rs.len() && 0 <= j < rs.len() && i != j ==> !overlaps(#[trigger] rs[i], #[trigger] rs[j])
}

/// No cell lies in two colliders of `cs`.
pub open spec fn colliders_disjoint(cs: Seq<LevelCollider>) -> bool {
    forall|i: int, j: int, x: int, y: int|
        0 <= i < cs.len() && 0 <= j < cs.len() && i != j && #[trigger] cs[i].0.contains(x, y)
            ==> !#[trigger] cs[j].0.contains(x, y)
}

/// Some rectangle of `rs` spans the strip `s` in row `y`.
pub open spec fn spanned(rs: Seq<IRect>, y: int, s: Strip) -> bool {
    exists|i: int| 0 <= i < rs.len() && #[trigger] rect_spans(rs[i], y, s)
}

proof fn lemma_remove_keeps(v: Seq<Strip>, i: int, t: Strip)
    requires
        0 <= i < v.len(),
        v.contains(t),
        v[i] != t,
    ensures
        v.remove(i).contains(t),
{
    let j = choose|j: int| 0 <= j < v.len() && v[j] == t;
    if j < i {
        assert(v.remove(i)[j] == t);
    } else {
        assert(v.remove(i)[j - 1] == t);
    }
}

proof fn lemma_pop_keeps(v: Seq<Strip>, t: Strip)
    requires
        v.len() > 0,
        v.contains(t),
        v.last() != t,
    ensures
        v.subrange(0, v.len() - 1).contains(t),
{
    let j = choose|j: int| 0 <= j < v.len() && v[j] == t;
    assert(v.subrange(0, v.len() - 1)[j] == t);
}

proof fn lemma_index_bound(lx: int, ly: int, w: int, h: int)
    requires
        0 <= lx < w,
        0 <= ly < h,
    ensures
        0 <= lx + w * ly < w * h,
        w * ly <= w * h,
{
    assert(w * ly <= w * (h - 1)) by (nonlinear_arith)
        requires
            0 <= ly < h,
            0 <= w,
    ;
    assert(w * (h - 1) == w * h - w) by (nonlinear_arith);
    assert(0 <= w * ly) by (nonlinear_arith)
        requires
            0 <= ly,
            0 <= w,
    ;
}

proof fn lemma_index_injective(lx1: int, ly1: int, lx2: int, ly2: int, w: int)
    requires
        0 <= lx1 < w,
        0 <= lx2 < w,
        0 <= ly1,
        0 <= ly2,
        lx1 + w * ly1 == lx2 + w * ly2,
    ensures
        lx1 == lx2,
        ly1 == ly2,
{
    if ly1 < ly2 {
        assert(w * ly1 + w <= w * ly2) by (nonlinear_arith)
            requires
                ly1 < ly2,
                0 <= w,
        ;
    } else if ly2 < ly1 {
        assert(w * ly2 + w <= w * ly1) by (nonlinear_arith)
            requires
                ly2 < ly1,
                0 <= w,
        ;
    }
}

/// Position of the first strip of `v` equal to `s`.
fn find_strip(v: &Vec<Strip>, s: Strip) -> (r: Option<usize>)
    ensures
        r matches Some(i) ==> i < v@.len() && v@[i as int] == s,
        r is None ==> !v@.contains(s),
{
    let mut i: usize = 0;
    while i < v.len()
        invariant
            i <= v@.len(),
            forall|j: int| 0 <= j < i ==> v@[j] != s,
        decreases v@.len() - i,
    {
        let t = v[i];
        if t.0 == s.0 && t.1 == s.1 {
            return Some(i);
        }
        i += 1;
    }
    None
}

impl LevelCollisionBuilder {
    /// The rectangle of cells the grid covers.
    pub closed spec fn spec_bounds(&self) -> IRect {
        self.bounds
    }

    /// The cells in row-major order.
    pub closed spec fn cells(&self) -> Seq<bool> {
        self.collision_grid@
    }

    /// The stored extent agrees with the bounds.
    pub closed spec fn size_matches(&self) -> bool {
        self.size.x == self.bounds.max.x - self.bounds.min.x && self.size.y == self.bounds.max.y
            - self.bounds.min.y
    }

    pub open spec fn width(&self) -> int {
        self.spec_bounds().max.x - self.spec_bounds().min.x
    }

    pub open spec fn height(&self) -> int {
        self.spec_bounds().max.y - self.spec_bounds().min.y
    }

    /// The grid's shape agrees with its bounds.
    pub open spec fn wf(&self) -> bool {
        &&& self.spec_bounds().min.x <= self.spec_bounds().max.x
        &&& self.spec_bounds().min.y <= self.spec_bounds().max.y
        &&& self.size_matches()
        &&& self.cells().len() == self.width() * self.height()
    }

    /// Position of the cell `(x, y)` in the row-major cell sequence.
    pub open spec fn cell_index(&self, x: int, y: int) -> int {
        (x - self.spec_bounds().min.x) + self.width() * (y - self.spec_bounds().min.y)
    }

    /// The cell `(x, y)` is solid; cells outside the bounds are not.
    pub open spec fn is_solid(&self, x: int, y: int) -> bool {
        self.spec_bounds().contains(x, y) && self.cells()[self.cell_index(x, y)]
    }

    /// Every cell of the strip `s` in row `y` is solid.
    pub open spec fn strip_is_solid(&self, y: int, s: Strip) -> bool {
        &&& s.0 <= s.1
        &&& forall|x: int| s.0 <= x <= s.1 ==> #[trigger] self.is_solid(x, y)
    }

    /// The rectangle is non-empty and holds solid cells only.
    pub open spec fn rect_is_solid(&self, r: IRect) -> bool {
        &&& r.is_nonempty()
        &&& forall|x: int, y: int| r.contains(x, y) ==> #[trigger] self.is_solid(x, y)
    }

    /// Every solid cell lies in some rectangle of `rs`.
    pub open spec fn rects_cover(&self, rs: Seq<IRect>) -> bool {
        forall|x: int, y: int|
            #[trigger] self.is_solid(x, y) ==> exists|i: int| 0 <= i < rs.len() && rs[i].contains(x, y)
    }

    /// The cell `(x, y)`, counted from the grid's minimum corner, is solid.
    pub open spec fn is_solid_local(&self, x: int, y: int) -> bool {
        self.is_solid(x + self.spec_bounds().min.x, y + self.spec_bounds().min.y)
    }

    /// The collider is non-empty, lies inside the grid and holds solid cells only.
    pub open spec fn collider_is_solid(&self, c: LevelCollider) -> bool {
        &&& c.0.min.x < c.0.max.x <= self.width()
        &&& c.0.min.y < c.0.max.y <= self.height()
        &&& forall|x: int, y: int| c.0.contains(x, y) ==> #[trigger] self.is_solid_local(x, y)
    }

    /// A set of colliders is a faithful reduction of the grid: every collider is non-empty and
    /// solid, no two share a cell, and every solid cell lies in some collider.
    pub open spec fn is_reduction(&self, cs: Seq<LevelCollider>) -> bool {
        &&& forall|i: int| 0 <= i < cs.len() ==> self.collider_is_solid(#[trigger] cs[i])
        &&& colliders_disjoint(cs)
        &&& forall|x: int, y: int|
            #[trigger] self.is_solid_local(x, y) ==> exists|i: int|
                0 <= i < cs.len() && cs[i].0.contains(x, y)
    }

    /// The rectangle in grid coordinates that a collider stands for.
    pub open spec fn to_world(&self, c: LevelCollider) -> IRect {
        IRect {
            min: IVec2 {
                x: (c.0.min.x + self.spec_bounds().min.x) as i32,
                y: (c.0.min.y + self.spec_bounds().min.y) as i32,
            },
            max: IVec2 {
                x: (c.0.max.x + self.spec_bounds().min.x) as i32,
                y: (c.0.max.y + self.spec_bounds().min.y) as i32,
            },
        }
    }

    /// The collider lies inside the grid and is a maximal vertical stack of one maximal run.
    pub open spec fn is_stack_collider(&self, c: LevelCollider) -> bool {
        &&& c.0.min.x <= c.0.max.x <= self.width()
        &&& c.0.min.y <= c.0.max.y <= self.height()
        &&& self.is_stack(self.to_world(c))
    }

    /// The colliders are a reduction of the grid made of exactly its maximal vertical stacks of
    /// equal maximal runs: each stack once, nothing else.
    pub open spec fn is_stack_reduction(&self, cs: Seq<LevelCollider>) -> bool {
        &&& self.is_reduction(cs)
        &&& forall|i: int| 0 <= i < cs.len() ==> self.is_stack_collider(#[trigger] cs[i])
        &&& forall|c: LevelCollider| #[trigger] self.is_stack_collider(c) ==> cs.contains(c)
    }

    /// Every cell of the grid is solid.
    pub open spec fn all_solid(&self) -> bool {
        forall|x: int, y: int| self.spec_bounds().contains(x, y) ==> #[trigger] self.is_solid(x, y)
    }

    /// The strip `s` is a maximal run of solid cells in row `y`: all its cells are solid, and the
    /// cells just left and right of it are not.
    pub open spec fn is_run(&self, y: int, s: Strip) -> bool {
        &&& self.strip_is_solid(y, s)
        &&& !self.is_solid(s.0 - 1, y)
        &&& !self.is_solid(s.1 + 1, y)
    }

    /// The rectangle is a maximal vertical stack of one maximal run: in each of its rows its
    /// strip is a maximal run, and in the rows just above and below it is not.
    pub open spec fn is_stack(&self, r: IRect) -> bool {
        &&& r.is_nonempty()
        &&& forall|y: int| r.min.y <= y < r.max.y ==> #[trigger] self.is_run(y, strip_of(r))
        &&& !self.is_run(r.min.y - 1, strip_of(r))
        &&& !self.is_run(r.max.y as int, strip_of(r))
    }

    proof fn lemma_runs_meet(&self, y: int, a: Strip, b: Strip)
        requires
            self.is_run(y, a),
            self.is_run(y, b),
            a.0 <= b.1,
            b.0 <= a.1,
        ensures
            a == b,
    {
        if a.0 < b.0 {
            assert(self.is_solid(b.0 - 1, y));
        }
        if b.0 < a.0 {
            assert(self.is_solid(a.0 - 1, y));
        }
        if a.1 < b.1 {
            assert(self.is_solid(a.1 + 1, y));
        }
        if b.1 < a.1 {
            assert(self.is_solid(b.1 + 1, y));
        }
    }

    proof fn lemma_run_listed(&self, r: int, row: Seq<Strip>, s: Strip)
        requires
            self.row_complete(r, row),
            self.row_ok(r, row),
            self.local_strip_solid(r, s),
        ensures
            row.contains(s),
    {
        let y = self.spec_bounds().min.y + r;
        assert(self.is_solid(s.0 as int, y));
        let j = choose|j: int| 0 <= j < row.len() && strip_has(#[trigger] row[j], s.0 as int);
        assert(self.local_strip_solid(r, row[j]));
        self.lemma_runs_meet(y, row[j], s);
    }

    proof fn lemma_stacks_meet(&self, a: IRect, m: IRect)
        requires
            self.is_stack(a),
            self.is_stack(m),
            a.contains(m.min.x as int, m.min.y as int),
        ensures
            a == m,
    {
        let y0 = m.min.y as int;
        assert(self.is_run(y0, strip_of(a)));
        assert(self.is_run(y0, strip_of(m)));
        self.lemma_runs_meet(y0, strip_of(a), strip_of(m));
        if a.min.y < m.min.y {
            assert(self.is_run(m.min.y - 1, strip_of(a)));
        }
        if a.max.y < m.max.y {
            assert(self.is_run(a.max.y as int, strip_of(m)));
        }
        if m.max.y < a.max.y {
            assert(self.is_run(m.max.y as int, strip_of(a)));
        }
    }

    /// The strip `s` is a maximal run of the `r`-th row of the grid.
    pub open spec fn local_strip_solid(&self, r: int, s: Strip) -> bool {
        self.is_run(self.spec_bounds().min.y + r, s)
    }

    /// Every strip of `row` is solid in the `r`-th row of the grid.
    pub open spec fn row_ok(&self, r: int, row: Seq<Strip>) -> bool {
        forall|j: int| 0 <= j < row.len() ==> self.local_strip_solid(r, #[trigger] row[j])
    }

    /// Every solid cell of the `r`-th row lies in some strip of `row`.
    pub open spec fn row_complete(&self, r: int, row: Seq<Strip>) -> bool {
        forall|x: int|
            #[trigger] self.is_solid(x, self.spec_bounds().min.y + r) ==> exists|j: int|
                0 <= j < row.len() && strip_has(#[trigger] row[j], x)
    }

    /// The strip spanning the full width of the grid.
    pub open spec fn full_strip(&self) -> Strip {
        (self.spec_bounds().min.x, (self.spec_bounds().max.x - 1) as i32)
    }

    proof fn lemma_cell_index(&self, x: int, y: int)
        requires
            self.wf(),
            self.spec_bounds().contains(x, y),
        ensures
            0 <= self.cell_index(x, y) < self.cells().len(),
            self.width() * (y - self.spec_bounds().min.y) <= self.cells().len(),
    {
        lemma_index_bound(
            x - self.spec_bounds().min.x,
            y - self.spec_bounds().min.y,
            self.width(),
            self.height(),
        );
    }

    fn new(level_bounds: IRect, default: bool) -> (r: Self)
        requires
            level_bounds.min.x <= level_bounds.max.x,
            level_bounds.min.y <= level_bounds.max.y,
            level_bounds.max.x - level_bounds.min.x <= i32::MAX,
            level_bounds.max.y - level_bounds.min.y <= i32::MAX,
            (level_bounds.max.x - level_bounds.min.x) * (level_bounds.max.y - level_bounds.min.y)
                <= usize::MAX,
        ensures
            r.wf(),
            r.spec_bounds() == level_bounds,
            forall|x: int, y: int|
                level_bounds.contains(x, y) ==> #[trigger] r.is_solid(x, y) == default,
    {
        let w = level_bounds.max.x - level_bounds.min.x;
        let h = level_bounds.max.y - level_bounds.min.y;
        let n = (w as usize) * (h as usize);
        let mut grid: Vec<bool> = Vec::with_capacity(n);
        let mut i: usize = 0;
        while i < n
            invariant
                i <= n,
                grid@.len() == i,
                forall|j: int| 0 <= j < i ==> grid@[j] == default,
            decreases n - i,
        {
            grid.push(default);
            i += 1;
        }
        let r = LevelCollisionBuilder {
            bounds: level_bounds,
            size: IVec2 { x: w, y: h },
            collision_grid: grid,
        };
        assert forall|x: int, y: int| level_bounds.contains(x, y) implies #[trigger] r.is_solid(
            x,
            y,
        ) == default by {
            r.lemma_cell_index(x, y);
        }
        r
    }

    /// A grid of the given size with its minimum corner at the origin, filled from `collision_grid`
    /// in row-major order.
    pub fn from_grid(size: UVec2, collision_grid: Vec<bool>) -> (r: Self)
        requires
            size.x <= i32::MAX,
            size.y <= i32::MAX,
            size.x * size.y == collision_grid@.len(),
        ensures
            r.wf(),
            r.spec_bounds() == (IRect {
                min: IVec2 { x: 0, y: 0 },
                max: IVec2 { x: size.x as i32, y: size.y as i32 },
            }),
            r.cells() == collision_grid@,
    {
        let size = IVec2 { x: size.x as i32, y: size.y as i32 };
        LevelCollisionBuilder { bounds: IRect { min: IVec2 { x: 0, y: 0 }, max: size }, size, collision_grid }
    }

    /// A grid over the given bounds with every cell empty.
    pub fn new_empty(bounds: IRect) -> (r: Self)
        requires
            bounds.min.x <= bounds.max.x,
            bounds.min.y <= bounds.max.y,
            bounds.max.x - bounds.min.x <= i32::MAX,
            bounds.max.y - bounds.min.y <= i32::MAX,
            (bounds.max.x - bounds.min.x) * (bounds.max.y - bounds.min.y) <= usize::MAX,
        ensures
            r.wf(),
            r.spec_bounds() == bounds,
            forall|x: int, y: int| !#[trigger] r.is_solid(x, y),
    {
        Self::new(bounds, false)
    }

    /// A grid over the given bounds with every cell solid.
    pub fn new_filled(bounds: IRect) -> (r: Self)
        requires
            bounds.min.x <= bounds.max.x,
            bounds.min.y <= bounds.max.y,
            bounds.max.x - bounds.min.x <= i32::MAX,
            bounds.max.y - bounds.min.y <= i32::MAX,
            (bounds.max.x - bounds.min.x) * (bounds.max.y - bounds.min.y) <= usize::MAX,
        ensures
            r.wf(),
            r.spec_bounds() == bounds,
            forall|x: int, y: int| #[trigger] r.is_solid(x, y) == bounds.contains(x, y),
    {
        Self::new(bounds, true)
    }

    /// Index of `grid` in the cell sequence, or `None` outside the bounds.
    fn linearize(&self, grid: IVec2) -> (r: Option<usize>)
        requires
            self.wf(),
        ensures
            self.spec_bounds().contains(grid.x as int, grid.y as int) <==> r.is_some(),
            r.is_some() ==> r.unwrap() == self.cell_index(grid.x as int, grid.y as int)
                && r.unwrap() < self.cells().len(),
    {
        if grid.x >= self.bounds.min.x && grid.y >= self.bounds.min.y && grid.x < self.bounds.max.x
            && grid.y < self.bounds.max.y {
            proof {
                self.lemma_cell_index(grid.x as int, grid.y as int);
            }
            let lx = (grid.x as i64 - self.bounds.min.x as i64) as usize;
            let ly = (grid.y as i64 - self.bounds.min.y as i64) as usize;
            assert(lx as int == grid.x - self.bounds.min.x);
            assert(ly as int == grid.y - self.bounds.min.y);
            assert(self.size.x as usize as int == self.width());
            let n = self.collision_grid.len();
            assert((self.size.x as usize) * ly <= n);
            Some(lx + (self.size.x as usize) * ly)
        } else {
            None
        }
    }

    /// Whether the cell at `grid` is solid; cells outside the grid are not.
    pub fn get(&self, grid: IVec2) -> (r: bool)
        requires
            self.wf(),
        ensures
            r == self.is_solid(grid.x as int, grid.y as int),
    {
        match self.linearize(grid) {
            Some(i) => self.collision_grid[i],
            None => false,
        }
    }

    /// Sets the cell at `grid`; a cell outside the grid is left alone.
    pub fn set(&mut self, grid: IVec2, collides: bool)
        requires
            old(self).wf(),
        ensures
            final(self).wf(),
            final(self).spec_bounds() == old(self).spec_bounds(),
            forall|x: int, y: int|
                #[trigger] final(self).is_solid(x, y) == if x == grid.x && y == grid.y {
                    old(self).spec_bounds().contains(x, y) && collides
                } else {
                    old(self).is_solid(x, y)
                },
    {
        match self.linearize(grid) {
            Some(i) => {
                self.collision_grid.set(i, collides);
                proof {
                    assert forall|x: int, y: int| #[trigger]
                        self.is_solid(x, y) == if x == grid.x && y == grid.y {
                            old(self).spec_bounds().contains(x, y) && collides
                        } else {
                            old(self).is_solid(x, y)
                        } by {
                        if self.spec_bounds().contains(x, y) {
                            old(self).lemma_cell_index(x, y);
                            if !(x == grid.x && y == grid.y) && old(self).cell_index(x, y)
                                == old(self).cell_index(grid.x as int, grid.y as int) {
                                lemma_index_injective(
                                    x - self.bounds.min.x,
                                    y - self.bounds.min.y,
                                    grid.x - self.bounds.min.x,
                                    grid.y - self.bounds.min.y,
                                    self.width(),
                                );
                            }
                        }
                    }
                }
            },
            None => {},
        }
    }

    /// The maximal runs of solid cells in row `y`, left to right.
    fn row_strips(&self, y: i32) -> (r: Vec<Strip>)
        requires
            self.wf(),
            self.spec_bounds().min.y <= y < self.spec_bounds().max.y,
        ensures
            forall|j: int| 0 <= j < r@.len() ==> self.is_run(y as int, #[trigger] r@[j]),
            forall|x: int|
                #[trigger] self.is_solid(x, y as int) ==> exists|j: int|
                    0 <= j < r@.len() && strip_has(#[trigger] r@[j], x),
            self.all_solid() && self.width() > 0 ==> r@ == seq![
                (self.spec_bounds().min.x, (self.spec_bounds().max.x - 1) as i32),
            ],
            row_apart(r@),
            row_sorted(r@),
    {
        let mut strips: Vec<Strip> = Vec::new();
        let mut strip_start: Option<i32> = None;
        let mut x: i32 = self.bounds.min.x;
        let ghost full = self.all_solid();
        while x < self.bounds.max.x
            invariant
                self.wf(),
                self.spec_bounds().min.y <= y < self.spec_bounds().max.y,
                self.bounds.min.x <= x <= self.bounds.max.x,
                full == self.all_solid(),
                forall|j: int|
                    0 <= j < strips@.len() ==> self.is_run(y as int, #[trigger] strips@[j]),
                strip_start is None ==> x == self.bounds.min.x || !self.is_solid(x - 1, y as int),
                strip_start matches Some(l) ==> !self.is_solid(l - 1, y as int),
                forall|j: int| 0 <= j < strips@.len() ==> #[trigger] strips@[j].1 < x,
                row_apart(strips@),
                row_sorted(strips@),
                strip_start matches Some(l) ==> forall|j: int|
                    0 <= j < strips@.len() ==> #[trigger] strips@[j].1 < l,
                strip_start matches Some(l) ==> self.bounds.min.x <= l < x && forall|c: int|
                    l <= c < x ==> #[trigger] self.is_solid(c, y as int),
                forall|c: int|
                    self.bounds.min.x <= c < x && #[trigger] self.is_solid(c, y as int) ==> (exists|
                        j: int,
                    | 0 <= j < strips@.len() && strip_has(#[trigger] strips@[j], c)) || (
                    strip_start matches Some(l) && l <= c),
                full ==> strips@.len() == 0 && (x > self.bounds.min.x ==> strip_start == Some(
                    self.bounds.min.x,
                )),
            decreases self.bounds.max.x - x,
        {
            let solid = self.get(IVec2 { x, y });
            proof {
                if full {
                    assert(self.spec_bounds().contains(x as int, y as int));
                }
            }
            match strip_start {
                None => {
                    if solid {
                        strip_start = Some(x);
                    }
                },
                Some(left) => {
                    if !solid {
                        let ghost old_strips = strips@;
                        strips.push((left, x - 1));
                        strip_start = None;
                        proof {
                            assert forall|c: int|
                                self.bounds.min.x <= c < x + 1 && #[trigger] self.is_solid(
                                    c,
                                    y as int,
                                ) implies exists|j: int|
                                0 <= j < strips@.len() && strip_has(#[trigger] strips@[j], c) by {
                                if c >= left {
                                    assert(strip_has(strips@[old_strips.len() as int], c));
                                } else {
                                    let j = choose|j: int|
                                        0 <= j < old_strips.len() && strip_has(
                                            #[trigger] old_strips[j],
                                            c,
                                        );
                                    assert(strip_has(strips@[j], c));
                                }
                            }
                        }
                    }
                },
            }
            x += 1;
        }
        if let Some(left) = strip_start {
            let ghost old_strips = strips@;
            strips.push((left, x - 1));
            proof {
                assert forall|c: int| #[trigger] self.is_solid(c, y as int) implies exists|j: int|
                    0 <= j < strips@.len() && strip_has(#[trigger] strips@[j], c) by {
                    if c >= left {
                        assert(strip_has(strips@[old_strips.len() as int], c));
                    } else {
                        let j = choose|j: int|
                            0 <= j < old_strips.len() && strip_has(#[trigger] old_strips[j], c);
                        assert(strip_has(strips@[j], c));
                    }
                }
            }
        }
        strips
    }

    /// Rectangles, in grid coordinates, that hold solid cells only, share no cell, and together
    /// cover every solid cell. Each row is cut into maximal strips; a strip then absorbs the equal
    /// strips of the rows that follow it, and strips are taken from the back of each row.
    fn build_rects(&self) -> (rects: Vec<IRect>)
        requires
            self.wf(),
        ensures
            forall|i: int| 0 <= i < rects@.len() ==> self.rect_is_solid(#[trigger] rects@[i]),
            self.rects_cover(rects@),
            pairwise_disjoint(rects@),
            forall|i: int| 0 <= i < rects@.len() ==> self.is_stack(#[trigger] rects@[i]),
            forall|m: IRect| #[trigger] self.is_stack(m) ==> rects@.contains(m),
            rects_ordered(rects@),
            self.all_solid() && self.width() > 0 && self.height() > 0 ==> rects@ == seq![
                self.spec_bounds(),
            ],
    {
        let ghost full = self.all_solid() && self.width() > 0 && self.height() > 0;
        let ghost fs = self.full_strip();
        let mut strips: Vec<Vec<Strip>> = Vec::new();
        let mut y: i32 = self.bounds.min.y;
        while y < self.bounds.max.y
            invariant
                self.wf(),
                full == (self.all_solid() && self.width() > 0 && self.height() > 0),
                fs == self.full_strip(),
                self.bounds.min.y <= y <= self.bounds.max.y,
                strips@.len() == y - self.bounds.min.y,
                forall|r: int| 0 <= r < strips@.len() ==> self.row_ok(r, #[trigger] strips@[r]@),
                forall|r: int|
                    0 <= r < strips@.len() ==> self.row_complete(r, #[trigger] strips@[r]@),
                forall|r: int| 0 <= r < strips@.len() ==> row_apart(#[trigger] strips@[r]@),
                forall|r: int| 0 <= r < strips@.len() ==> row_sorted(#[trigger] strips@[r]@),
                full ==> forall|r: int| 0 <= r < strips@.len() ==> #[trigger] strips@[r]@ == seq![fs],
            decreases self.bounds.max.y - y,
        {
            let row_strips = self.row_strips(y);
            let ghost r = strips@.len() as int;
            strips.push(row_strips);
            proof {
                assert(self.bounds.min.y + r == y);
                assert forall|j: int| 0 <= j < row_strips@.len() implies self.local_strip_solid(
                    r,
                    #[trigger] row_strips@[j],
                ) by {}
                assert forall|x: int| #[trigger]
                    self.is_solid(x, self.spec_bounds().min.y + r) implies exists|j: int|
                    0 <= j < row_strips@.len() && strip_has(#[trigger] row_strips@[j], x) by {
                    assert(self.is_solid(x, y as int));
                }
                assert(self.row_ok(r, strips@[r]@));
                assert(self.row_complete(r, strips@[r]@));
            }
            y += 1;
        }
        let n = strips.len();
        let ghost orig: Seq<Seq<Strip>> = strips@.map_values(|v: Vec<Strip>| v@);
        let mut out: Vec<IRect> = Vec::new();
        let mut row: usize = 0;
        while row < n
            invariant
                self.wf(),
                full == (self.all_solid() && self.width() > 0 && self.height() > 0),
                fs == self.full_strip(),
                n == self.height(),
                row <= n,
                strips@.len() == n,
                orig.len() == n,
                forall|r: int| 0 <= r < n ==> self.row_ok(r, #[trigger] strips@[r]@),
                forall|r: int| 0 <= r < n ==> self.row_complete(r, #[trigger] orig[r]),
                forall|r: int| 0 <= r < row ==> (#[trigger] strips@[r])@.len() == 0,
                forall|r: int, j: int|
                    0 <= r < n && 0 <= j < orig[r].len() ==> strips@[r]@.contains(
                        #[trigger] orig[r][j],
                    ) || spanned(out@, self.bounds.min.y + r, orig[r][j]),
                forall|i: int| 0 <= i < out@.len() ==> self.rect_is_solid(#[trigger] out@[i]),
                forall|r: int| 0 <= r < n ==> row_apart(#[trigger] strips@[r]@),
                pairwise_disjoint(out@),
                forall|i: int| 0 <= i < out@.len() ==> (#[trigger] out@[i]).min.y < self.bounds.min.y + row,
                rects_ordered(out@),
                forall|r: int| 0 <= r < n ==> row_sorted(#[trigger] strips@[r]@),
                forall|i: int| 0 <= i < out@.len() ==> self.is_stack(#[trigger] out@[i]),
                forall|i: int| 0 <= i < out@.len() ==> (#[trigger] out@[i]).min.y <= self.bounds.min.y + row,
                forall|r: int| 0 <= r < n ==> self.row_ok(r, #[trigger] orig[r]),
                forall|r: int, j: int, i: int|
                    0 <= r < n && 0 <= j < strips@[r]@.len() && 0 <= i < out@.len() ==> !meets_strip(
                        #[trigger] out@[i],
                        #[trigger] strips@[r]@[j],
                        self.bounds.min.y + r,
                        self.bounds.min.y + r + 1,
                    ),
                full ==> (row == 0 && out@.len() == 0 && forall|r: int|
                    0 <= r < n ==> #[trigger] strips@[r]@ == seq![fs]) || (out@ == seq![
                    self.spec_bounds(),
                ] && forall|r: int| 0 <= r < n ==> (#[trigger] strips@[r])@.len() == 0),
            decreases n - row,
        {
            while strips[row].len() > 0
                invariant
                    self.wf(),
                    full == (self.all_solid() && self.width() > 0 && self.height() > 0),
                    fs == self.full_strip(),
                    n == self.height(),
                    row < n,
                    strips@.len() == n,
                    orig.len() == n,
                    forall|r: int| 0 <= r < n ==> self.row_ok(r, #[trigger] strips@[r]@),
                    forall|r: int| 0 <= r < n ==> self.row_complete(r, #[trigger] orig[r]),
                    forall|r: int| 0 <= r < row ==> (#[trigger] strips@[r])@.len() == 0,
                    forall|r: int, j: int|
                        0 <= r < n && 0 <= j < orig[r].len() ==> strips@[r]@.contains(
                            #[trigger] orig[r][j],
                        ) || spanned(out@, self.bounds.min.y + r, orig[r][j]),
                    forall|i: int| 0 <= i < out@.len() ==> self.rect_is_solid(#[trigger] out@[i]),
                    forall|r: int| 0 <= r < n ==> row_apart(#[trigger] strips@[r]@),
                    pairwise_disjoint(out@),
                    rects_ordered(out@),
                    forall|r: int| 0 <= r < n ==> row_sorted(#[trigger] strips@[r]@),
                    forall|i: int, j: int|
                        0 <= i < out@.len() && (#[trigger] out@[i]).min.y == self.bounds.min.y + row && 0 <= j
                            < strips@[row as int]@.len() ==> (#[trigger] strips@[row as int]@[j]).0 < out@[i].min.x,
                    forall|i: int| 0 <= i < out@.len() ==> self.is_stack(#[trigger] out@[i]),
                    forall|i: int| 0 <= i < out@.len() ==> (#[trigger] out@[i]).min.y <= self.bounds.min.y + row,
                    forall|r: int| 0 <= r < n ==> self.row_ok(r, #[trigger] orig[r]),
                    forall|r: int, j: int, i: int|
                        0 <= r < n && 0 <= j < strips@[r]@.len() && 0 <= i < out@.len() ==> !meets_strip(
                            #[trigger] out@[i],
                            #[trigger] strips@[r]@[j],
                            self.bounds.min.y + r,
                            self.bounds.min.y + r + 1,
                        ),
                    full ==> (row == 0 && out@.len() == 0 && forall|r: int|
                        0 <= r < n ==> #[trigger] strips@[r]@ == seq![fs]) || (out@ == seq![
                        self.spec_bounds(),
                    ] && forall|r: int| 0 <= r < n ==> (#[trigger] strips@[r])@.len() == 0),
                decreases strips@[row as int]@.len(),
            {
                let ghost before = strips@;
                let mut head: Vec<Strip> = Vec::new();
                strips.set_and_swap(row, &mut head);
                let popped = head.pop();
                strips.set_and_swap(row, &mut head);
                let s = popped.unwrap();
                let ghost head_len = strips@[row as int]@.len();
                proof {
                    assert(strips@[row as int]@ == before[row as int]@.subrange(
                        0,
                        before[row as int]@.len() - 1,
                    ));
                    assert(s == before[row as int]@[before[row as int]@.len() - 1]);
                    assert(self.local_strip_solid(row as int, s));
                    assert forall|r: int| 0 <= r < n implies self.row_ok(
                        r,
                        #[trigger] strips@[r]@,
                    ) by {
                        if r == row {
                            assert forall|j: int| 0 <= j < strips@[r]@.len() implies self.local_strip_solid(
                                r,
                                #[trigger] strips@[r]@[j],
                            ) by {
                                assert(strips@[r]@[j] == before[r]@[j]);
                            }
                        }
                    }
                    assert forall|r: int, j: int|
                        0 <= r < n && 0 <= j < orig[r].len() implies strips@[r]@.contains(
                        #[trigger] orig[r][j],
                    ) || spanned(out@, self.bounds.min.y + r, orig[r][j]) || (orig[r][j] == s && r
                        == row) by {
                        if r == row && before[r]@.contains(orig[r][j]) && orig[r][j] != s {
                            lemma_pop_keeps(before[r]@, orig[r][j]);
                        }
                    }
                    if full {
                        assert(before[row as int]@ == seq![fs]);
                        assert(s == fs);
                    }
                }
                let mut dy: usize = 0;
                let mut going = true;
                while going && row + 1 + dy < n
                    invariant
                        self.wf(),
                        full == (self.all_solid() && self.width() > 0 && self.height() > 0),
                        fs == self.full_strip(),
                        n == self.height(),
                        row < n,
                        row + 1 + dy <= n,
                        strips@.len() == n,
                        orig.len() == n,
                        strips@[row as int]@.len() == head_len,
                        forall|r: int| 0 <= r < n ==> self.row_ok(r, #[trigger] strips@[r]@),
                        forall|r: int| 0 <= r < n ==> self.row_complete(r, #[trigger] orig[r]),
                        forall|r: int| 0 <= r < row ==> (#[trigger] strips@[r])@.len() == 0,
                        forall|r: int|
                            row <= r <= row + dy ==> #[trigger] self.local_strip_solid(r, s),
                        forall|r: int, j: int|
                            0 <= r < n && 0 <= j < orig[r].len() ==> strips@[r]@.contains(
                                #[trigger] orig[r][j],
                            ) || spanned(out@, self.bounds.min.y + r, orig[r][j]) || (orig[r][j]
                                == s && row <= r <= row + dy),
                        forall|i: int| 0 <= i < out@.len() ==> self.rect_is_solid(#[trigger] out@[i]),
                        forall|r: int| 0 <= r < n ==> row_apart(#[trigger] strips@[r]@),
                        pairwise_disjoint(out@),
                        rects_ordered(out@),
                        forall|r: int| 0 <= r < n ==> row_sorted(#[trigger] strips@[r]@),
                        forall|i: int, j: int|
                            0 <= i < out@.len() && (#[trigger] out@[i]).min.y == self.bounds.min.y + row && 0 <= j
                                < strips@[row as int]@.len() ==> (#[trigger] strips@[row as int]@[j]).0 < out@[i].min.x,
                        forall|i: int|
                            0 <= i < out@.len() && (#[trigger] out@[i]).min.y == self.bounds.min.y + row ==> s.0
                                < out@[i].min.x,
                        forall|j: int| 0 <= j < strips@[row as int]@.len() ==> (#[trigger] strips@[row as int]@[j]).0 < s.0,
                        forall|i: int| 0 <= i < out@.len() ==> self.is_stack(#[trigger] out@[i]),
                        forall|i: int| 0 <= i < out@.len() ==> (#[trigger] out@[i]).min.y <= self.bounds.min.y + row,
                        forall|r: int| 0 <= r < n ==> self.row_ok(r, #[trigger] orig[r]),
                        !going ==> row + 1 + dy < n && !strips@[row + 1 + dy]@.contains(s),
                        forall|r: int, j: int, i: int|
                            0 <= r < n && 0 <= j < strips@[r]@.len() && 0 <= i < out@.len() ==> !meets_strip(
                                #[trigger] out@[i],
                                #[trigger] strips@[r]@[j],
                                self.bounds.min.y + r,
                                self.bounds.min.y + r + 1,
                            ),
                        forall|i: int|
                            0 <= i < out@.len() ==> !meets_strip(
                                #[trigger] out@[i],
                                s,
                                self.bounds.min.y + row,
                                self.bounds.min.y + row + dy + 1,
                            ),
                        forall|r: int, j: int|
                            row <= r <= row + dy && 0 <= j < strips@[r]@.len() ==> strips_apart(
                                #[trigger] strips@[r]@[j],
                                s,
                            ),
                        full ==> going && s == fs && row == 0 && out@.len() == 0 && (forall|r: int|
                            0 <= r <= dy ==> (#[trigger] strips@[r])@.len() == 0) && (forall|r: int|
                            dy < r < n ==> #[trigger] strips@[r]@ == seq![fs]),
                    decreases n - (row + 1 + dy), if going {
                        1int
                    } else {
                        0int
                    },
                {
                    let next_row = row + 1 + dy;
                    let ghost before = strips@;
                    let mut next: Vec<Strip> = Vec::new();
                    strips.set_and_swap(next_row, &mut next);
                    match find_strip(&next, s) {
                        Some(i) => {
                            let ghost nv = next@;
                            next.remove(i);
                            strips.set_and_swap(next_row, &mut next);
                            proof {
                                assert(strips@[next_row as int]@ == nv.remove(i as int));
                                assert(self.local_strip_solid(next_row as int, nv[i as int]));
                                assert forall|r: int| 0 <= r < n implies self.row_ok(
                                    r,
                                    #[trigger] strips@[r]@,
                                ) by {
                                    if r == next_row {
                                        assert forall|j: int|
                                            0 <= j < strips@[r]@.len() implies self.local_strip_solid(
                                            r,
                                            #[trigger] strips@[r]@[j],
                                        ) by {
                                            if j < i {
                                                assert(strips@[r]@[j] == nv[j]);
                                            } else {
                                                assert(strips@[r]@[j] == nv[j + 1]);
                                            }
                                        }
                                    } else {
                                        assert(strips@[r] == before[r]);
                                    }
                                }
                                assert forall|r: int, j: int|
                                    0 <= r < n && 0 <= j < orig[r].len() implies strips@[r]@.contains(
                                    #[trigger] orig[r][j],
                                ) || spanned(out@, self.bounds.min.y + r, orig[r][j]) || (orig[r][j]
                                    == s && row <= r <= row + dy + 1) by {
                                    if r == next_row && nv.contains(orig[r][j]) && orig[r][j] != s {
                                        lemma_remove_keeps(nv, i as int, orig[r][j]);
                                    } else if r != next_row {
                                        assert(strips@[r] == before[r]);
                                    }
                                }
                                if full {
                                    assert(nv == seq![fs]);
                                    assert(strips@[next_row as int]@ == Seq::<Strip>::empty());
                                    assert forall|r: int| 0 <= r <= dy + 1 implies (
                                    #[trigger] strips@[r])@.len() == 0 by {
                                        if r != next_row {
                                            assert(strips@[r] == before[r]);
                                        }
                                    }
                                    assert forall|r: int| dy + 1 < r < n implies #[trigger] strips@[r]@
                                        == seq![fs] by {
                                        assert(strips@[r] == before[r]);
                                    }
                                }
                            }
                            dy += 1;
                        },
                        None => {
                            strips.set_and_swap(next_row, &mut next);
                            proof {
                                assert(strips@ == before);
                                if full {
                                    assert(before[next_row as int]@ == seq![fs]);
                                    assert(before[next_row as int]@[0] == fs);
                                }
                            }
                            going = false;
                        },
                    }
                }
                proof {
                    assert(self.local_strip_solid(row as int, s));
                    assert(self.is_solid(s.1 as int, self.spec_bounds().min.y + row));
                }
                let y0 = self.bounds.min.y + row as i32;
                let y1 = y0 + dy as i32 + 1;
                let rect = IRect { min: IVec2 { x: s.0, y: y0 }, max: IVec2 { x: s.1 + 1, y: y1 } };
                let ghost old_out = out@;
                proof {
                    let y0 = self.bounds.min.y + row;
                    let y1 = y0 + dy + 1;
                    assert(strip_of(rect) == s);
                    assert forall|y: int| rect.min.y <= y < rect.max.y implies #[trigger] self.is_run(
                        y,
                        strip_of(rect),
                    ) by {
                        assert(self.local_strip_solid(y - self.bounds.min.y, s));
                    }
                    if self.is_run(y1, s) {
                        let rb = row + 1 + dy;
                        if rb >= n {
                            assert(!self.is_solid(s.0 as int, y1));
                        }
                        assert(!going);
                        self.lemma_run_listed(rb as int, orig[rb as int], s);
                        let j = choose|j: int| 0 <= j < orig[rb as int].len() && orig[rb as int][j] == s;
                        assert(!strips@[rb as int]@.contains(orig[rb as int][j]));
                        assert(spanned(out@, self.bounds.min.y + rb, orig[rb as int][j]));
                        let i = choose|i: int|
                            0 <= i < out@.len() && #[trigger] rect_spans(
                                out@[i],
                                self.bounds.min.y + rb,
                                orig[rb as int][j],
                            );
                        assert(meets_strip(out@[i], s, y0, y1));
                    }
                    if self.is_run(y0 - 1, s) {
                        if row == 0 {
                            assert(!self.is_solid(s.0 as int, y0 - 1));
                        }
                        let ra = row - 1;
                        self.lemma_run_listed(ra, orig[ra], s);
                        let j = choose|j: int| 0 <= j < orig[ra].len() && orig[ra][j] == s;
                        assert(strips@[ra]@.len() == 0);
                        assert(!strips@[ra]@.contains(orig[ra][j]));
                        assert(spanned(out@, self.bounds.min.y + ra, orig[ra][j]));
                        let i = choose|i: int|
                            0 <= i < out@.len() && #[trigger] rect_spans(
                                out@[i],
                                self.bounds.min.y + ra,
                                orig[ra][j],
                            );
                        let o = out@[i];
                        assert(self.is_stack(o));
                        assert(self.is_run(y0 - 1, strip_of(o)));
                        self.lemma_runs_meet(y0 - 1, strip_of(o), s);
                        if o.max.y > y0 {
                            assert(meets_strip(o, s, y0, y1));
                        } else {
                            assert(self.local_strip_solid(row as int, s));
                            assert(self.is_run(y0, s));
                        }
                    }
                    assert(self.is_stack(rect));
                }
                out.push(rect);
                proof {
                    assert forall|x: int, yy: int| rect.contains(x, yy) implies #[trigger] self.is_solid(
                        x,
                        yy,
                    ) by {
                        let r = yy - self.bounds.min.y;
                        assert(self.local_strip_solid(r, s));
                    }
                    assert(self.rect_is_solid(rect));
                    assert forall|r: int, j: int|
                        0 <= r < n && 0 <= j < orig[r].len() implies strips@[r]@.contains(
                        #[trigger] orig[r][j],
                    ) || spanned(out@, self.bounds.min.y + r, orig[r][j]) by {
                        if spanned(old_out, self.bounds.min.y + r, orig[r][j]) {
                            let i = choose|i: int|
                                0 <= i < old_out.len() && #[trigger] rect_spans(
                                    old_out[i],
                                    self.bounds.min.y + r,
                                    orig[r][j],
                                );
                            assert(rect_spans(out@[i], self.bounds.min.y + r, orig[r][j]));
                        } else if !strips@[r]@.contains(orig[r][j]) {
                            assert(rect_spans(out@[old_out.len() as int], self.bounds.min.y + r, orig[r][j]));
                        }
                    }
                    if full {
                        assert(row + 1 + dy == n);
                        assert(rect == self.spec_bounds());
                        assert(out@ == seq![self.spec_bounds()]);
                    }
                }
            }
            row += 1;
        }
        proof {
            assert forall|x: int, yy: int| #[trigger] self.is_solid(x, yy) implies exists|i: int|
                0 <= i < out@.len() && out@[i].contains(x, yy) by {
                let r = yy - self.bounds.min.y;
                assert(self.row_complete(r, orig[r]));
                assert(self.is_solid(x, self.spec_bounds().min.y + r));
                let j = choose|j: int| 0 <= j < orig[r].len() && strip_has(#[trigger] orig[r][j], x);
                assert(strips@[r]@.len() == 0);
                assert(!strips@[r]@.contains(orig[r][j]));
                let i = choose|i: int|
                    0 <= i < out@.len() && #[trigger] rect_spans(out@[i], self.bounds.min.y + r, orig[r][j]);
                assert(out@[i].contains(x, yy));
            }
            assert forall|m: IRect| #[trigger] self.is_stack(m) implies out@.contains(m) by {
                assert(self.is_run(m.min.y as int, strip_of(m)));
                assert(self.is_solid(m.min.x as int, m.min.y as int));
                let i = choose|i: int| 0 <= i < out@.len() && out@[i].contains(m.min.x as int, m.min.y as int);
                self.lemma_stacks_meet(out@[i], m);
            }
        }
        out
    }

    /// The collider for a rectangle in grid coordinates, relative to the grid's minimum corner.
    pub open spec fn to_local(&self, r: IRect) -> LevelCollider {
        LevelCollider(
            URect {
                min: UVec2 {
                    x: (r.min.x - self.spec_bounds().min.x) as u32,
                    y: (r.min.y - self.spec_bounds().min.y) as u32,
                },
                max: UVec2 {
                    x: (r.max.x - self.spec_bounds().min.x) as u32,
                    y: (r.max.y - self.spec_bounds().min.y) as u32,
                },
            },
        )
    }

    /// The collider covering the whole grid.
    pub open spec fn whole(&self) -> LevelCollider {
        LevelCollider(
            URect {
                min: UVec2 { x: 0, y: 0 },
                max: UVec2 { x: self.width() as u32, y: self.height() as u32 },
            },
        )
    }

    /// Reduces the grid to colliders relative to its minimum corner: one for each maximal
    /// vertical stack of equal maximal runs of solid cells, so each is non-empty and solid, no two
    /// share a cell, and together they cover every solid cell. A fully solid grid gives one
    /// collider covering it.
    pub fn build(&self) -> (r: Vec<LevelCollider>)
        requires
            self.wf(),
        ensures
            self.is_stack_reduction(r@),
            colliders_ordered(r@),
            self.all_solid() && self.width() > 0 && self.height() > 0 ==> r@ == seq![self.whole()],
    {
        let rects = self.build_rects();
        let mut colliders: Vec<LevelCollider> = Vec::new();
        let mut k: usize = 0;
        while k < rects.len()
            invariant
                self.wf(),
                k <= rects@.len(),
                colliders@.len() == k,
                forall|i: int| 0 <= i < rects@.len() ==> self.rect_is_solid(#[trigger] rects@[i]),
                forall|i: int| 0 <= i < rects@.len() ==> self.is_stack(#[trigger] rects@[i]),
                forall|m: IRect| #[trigger] self.is_stack(m) ==> rects@.contains(m),
                rects_ordered(rects@),
                forall|i: int| 0 <= i < k ==> #[trigger] colliders@[i] == self.to_local(rects@[i]),
            decreases rects@.len() - k,
        {
            let rect = rects[k];
            proof {
                assert(self.rect_is_solid(rect));
                assert(self.is_solid(rect.min.x as int, rect.min.y as int));
                assert(self.is_solid((rect.max.x - 1) as int, (rect.max.y - 1) as int));
            }
            let min_x = (rect.min.x as i64 - self.bounds.min.x as i64) as u32;
            let min_y = (rect.min.y as i64 - self.bounds.min.y as i64) as u32;
            let max_x = (rect.max.x as i64 - self.bounds.min.x as i64) as u32;
            let max_y = (rect.max.y as i64 - self.bounds.min.y as i64) as u32;
            colliders.push(
                LevelCollider(
                    URect { min: UVec2 { x: min_x, y: min_y }, max: UVec2 { x: max_x, y: max_y } },
                ),
            );
            k += 1;
        }
        proof {
            let bx = self.spec_bounds().min.x;
            let by = self.spec_bounds().min.y;
            assert forall|i: int| 0 <= i < colliders@.len() implies self.collider_is_solid(
                #[trigger] colliders@[i],
            ) by {
                let rect = rects@[i];
                assert(self.rect_is_solid(rect));
                assert(self.is_solid(rect.min.x as int, rect.min.y as int));
                assert(self.is_solid((rect.max.x - 1) as int, (rect.max.y - 1) as int));
                assert forall|x: int, y: int| colliders@[i].0.contains(x, y) implies #[trigger] self.is_solid_local(
                    x,
                    y,
                ) by {
                    assert(rect.contains(x + bx, y + by));
                }
            }
            assert forall|x: int, y: int| #[trigger] self.is_solid_local(x, y) implies exists|i: int|
                0 <= i < colliders@.len() && colliders@[i].0.contains(x, y) by {
                assert(self.is_solid(x + bx, y + by));
                let i = choose|i: int| 0 <= i < rects@.len() && rects@[i].contains(x + bx, y + by);
                let rect = rects@[i];
                assert(self.rect_is_solid(rect));
                assert(self.is_solid(rect.min.x as int, rect.min.y as int));
                assert(self.is_solid((rect.max.x - 1) as int, (rect.max.y - 1) as int));
                assert(colliders@[i].0.contains(x, y));
            }
            assert forall|i: int, j: int, x: int, y: int|
                0 <= i < colliders@.len() && 0 <= j < colliders@.len() && i != j
                    && #[trigger] colliders@[i].0.contains(x, y) implies !#[trigger] colliders@[j].0.contains(
                x,
                y,
            ) by {
                let a = rects@[i];
                let b = rects@[j];
                assert(self.rect_is_solid(a));
                assert(self.rect_is_solid(b));
                assert(self.is_solid(a.min.x as int, a.min.y as int));
                assert(self.is_solid((a.max.x - 1) as int, (a.max.y - 1) as int));
                assert(self.is_solid(b.min.x as int, b.min.y as int));
                assert(self.is_solid((b.max.x - 1) as int, (b.max.y - 1) as int));
                assert(!overlaps(a, b));
            }
            assert forall|i: int, j: int| 0 <= i < j < colliders@.len() implies (
            #[trigger] colliders@[i]).0.min.y <= (#[trigger] colliders@[j]).0.min.y && (
            colliders@[i].0.min.y == colliders@[j].0.min.y ==> colliders@[j].0.min.x
                < colliders@[i].0.min.x) by {
                let a = rects@[i];
                let b = rects@[j];
                assert(self.rect_is_solid(a));
                assert(self.rect_is_solid(b));
                assert(self.is_solid(a.min.x as int, a.min.y as int));
                assert(self.is_solid(b.min.x as int, b.min.y as int));
            }
            assert forall|i: int| 0 <= i < colliders@.len() implies self.is_stack_collider(
                #[trigger] colliders@[i],
            ) by {
                let rect = rects@[i];
                assert(self.rect_is_solid(rect));
                assert(self.is_solid(rect.min.x as int, rect.min.y as int));
                assert(self.is_solid((rect.max.x - 1) as int, (rect.max.y - 1) as int));
                assert(self.to_world(colliders@[i]) == rect);
            }
            assert forall|c: LevelCollider| #[trigger] self.is_stack_collider(c) implies colliders@.contains(
                c,
            ) by {
                let m = self.to_world(c);
                assert(self.is_stack(m));
                let i = choose|i: int| 0 <= i < rects@.len() && rects@[i] == m;
                assert(colliders@[i] == self.to_local(m));
                assert(m.min.x == c.0.min.x + self.spec_bounds().min.x);
                assert(m.max.x == c.0.max.x + self.spec_bounds().min.x);
                assert(m.min.y == c.0.min.y + self.spec_bounds().min.y);
                assert(m.max.y == c.0.max.y + self.spec_bounds().min.y);
                assert(self.to_local(m) == c);
            }
            if self.all_solid() && self.width() > 0 && self.height() > 0 {
                assert(colliders@ =~= seq![self.whole()]);
            }
        }
        colliders
    }

    /// Sets each listed cell in turn; cells outside the grid are left alone.
    pub fn set_iter(&mut self, cells: &[(IVec2, bool)])
        requires
            old(self).wf(),
        ensures
            final(self).wf(),
            final(self).spec_bounds() == old(self).spec_bounds(),
            forall|x: int, y: int|
                #[trigger] final(self).is_solid(x, y) == if exists|j: int|
                    0 <= j < cells@.len() && cells@[j].0.x == x && cells@[j].0.y == y {
                    old(self).spec_bounds().contains(x, y) && cells@[last_set(cells@, x, y)].1
                } else {
                    old(self).is_solid(x, y)
                },
    {
        let mut k: usize = 0;
        while k < cells.len()
            invariant
                k <= cells@.len(),
                self.wf(),
                self.spec_bounds() == old(self).spec_bounds(),
                forall|x: int, y: int|
                    #[trigger] self.is_solid(x, y) == if exists|j: int|
                        0 <= j < k && cells@[j].0.x == x && cells@[j].0.y == y {
                        old(self).spec_bounds().contains(x, y) && cells@[last_set(
                            cells@.subrange(0, k as int),
                            x,
                            y,
                        )].1
                    } else {
                        old(self).is_solid(x, y)
                    },
            decreases cells@.len() - k,
        {
            let (c, v) = cells[k];
            self.set(c, v);
            proof {
                let pre = cells@.subrange(0, k as int);
                let post = cells@.subrange(0, k + 1);
                assert forall|x: int, y: int| #[trigger]
                    self.is_solid(x, y) == if exists|j: int|
                        0 <= j < k + 1 && cells@[j].0.x == x && cells@[j].0.y == y {
                        old(self).spec_bounds().contains(x, y) && cells@[last_set(post, x, y)].1
                    } else {
                        old(self).is_solid(x, y)
                    } by {
                    lemma_last_set_push(pre, cells@[k as int], x, y);
                    assert(post == pre.push(cells@[k as int]));
                    if x == c.x && y == c.y {
                        assert(0 <= k < k + 1 && cells@[k as int].0.x == x && cells@[k as int].0.y
                            == y);
                    } else if exists|j: int| 0 <= j < k && cells@[j].0.x == x && cells@[j].0.y == y {
                        let j = choose|j: int| 0 <= j < k && cells@[j].0.x == x && cells@[j].0.y == y;
                        assert(pre[j] == cells@[j]);
                        assert(0 <= j < k + 1 && cells@[j].0.x == x && cells@[j].0.y == y);
                    } else {
                        assert forall|j: int| 0 <= j < k + 1 implies !(cells@[j].0.x == x
                            && cells@[j].0.y == y) by {
                            if j < k {
                                assert(!(0 <= j < k && cells@[j].0.x == x && cells@[j].0.y == y));
                            }
                        }
                    }
                }
            }
            k += 1;
        }
        proof {
            assert(cells@.subrange(0, cells@.len() as int) == cells@);
        }
    }
}

/// Index of the last entry of `cells` that names the cell `(x, y)`.
pub open spec fn last_set(cells: Seq<(IVec2, bool)>, x: int, y: int) -> int
    decreases cells.len(),
{
    if cells.len() == 0 {
        0
    } else if cells.last().0.x == x && cells.last().0.y == y {
        cells.len() - 1
    } else {
        last_set(cells.drop_last(), x, y)
    }
}

proof fn lemma_last_set_push(cells: Seq<(IVec2, bool)>, e: (IVec2, bool), x: int, y: int)
    ensures
        (e.0.x == x && e.0.y == y) ==> last_set(cells.push(e), x, y) == cells.len(),
        !(e.0.x == x && e.0.y == y) ==> last_set(cells.push(e), x, y) == last_set(cells, x, y),
{
    assert(cells.push(e).drop_last() == cells);
}

/// A reduction covers exactly the solid cells, each once: a cell is solid if and only if some
/// collider contains it, no two colliders contain the same cell, and every collider is non-empty.
pub proof fn reduction_covers_exactly_the_solid_cells(
    g: LevelCollisionBuilder,
    cs: Seq<LevelCollider>,
)
    requires
        g.wf(),
        g.is_reduction(cs),
    ensures
        forall|x: int, y: int|
            #[trigger] g.is_solid_local(x, y) <==> exists|i: int|
                0 <= i < cs.len() && cs[i].0.contains(x, y),
        forall|i: int|
            0 <= i < cs.len() ==> (#[trigger] cs[i]).0.min.x < cs[i].0.max.x && cs[i].0.min.y
                < cs[i].0.max.y,
        forall|i: int, j: int, x: int, y: int|
            0 <= i < cs.len() && 0 <= j < cs.len() && #[trigger] cs[i].0.contains(x, y)
                && #[trigger] cs[j].0.contains(x, y) ==> i == j,
{
    assert forall|x: int, y: int|
        (exists|i: int| 0 <= i < cs.len() && cs[i].0.contains(x, y)) implies #[trigger] g.is_solid_local(
        x,
        y,
    ) by {
        let i = choose|i: int| 0 <= i < cs.len() && cs[i].0.contains(x, y);
        assert(g.collider_is_solid(cs[i]));
    }
    assert forall|i: int| 0 <= i < cs.len() implies (#[trigger] cs[i]).0.min.x < cs[i].0.max.x
        && cs[i].0.min.y < cs[i].0.max.y by {
        assert(g.collider_is_solid(cs[i]));
    }
}

/// A grid with no solid cell reduces to no collider at all.
pub proof fn empty_grid_reduces_to_nothing(g: LevelCollisionBuilder, cs: Seq<LevelCollider>)
    requires
        g.wf(),
        g.is_reduction(cs),
        forall|x: int, y: int| !#[trigger] g.is_solid(x, y),
    ensures
        cs.len() == 0,
{
    if cs.len() > 0 {
        assert(g.collider_is_solid(cs[0]));
        let c = cs[0].0;
        assert(c.contains(c.min.x as int, c.min.y as int));
        assert(g.is_solid_local(c.min.x as int, c.min.y as int));
    }
}

} // verus!
