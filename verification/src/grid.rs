//! The dense 2D grid of cells. It owns all cell state and is the source of
//! truth for every category query; out-of-bounds coordinates are "no cell",
//! never aliased to an in-bounds cell.

use vstd::prelude::*;

use crate::category::CategoryId;
use crate::tile::{aged, fully_live, Tile, TileModel};

verus! {

/// `width x height` dense storage of cells, addressed by `(x, y)` with
/// `0 <= x < width`, `0 <= y < height`. Row `y` occupies the slice of
/// `rows` starting at `y * width`.
pub struct Grid {
    pub sx: usize,
    pub sy: usize,
    pub rows: Vec<Tile>,
}

impl Grid {
    pub open spec fn spec_width(self) -> int {
        self.sx as int
    }

    pub open spec fn spec_height(self) -> int {
        self.sy as int
    }

    /// Every in-bounds coordinate has exactly one cell: the backing vector
    /// is exactly `width * height` long.
    pub open spec fn wf(self) -> bool {
        self.rows@.len() == self.spec_width() * self.spec_height()
    }

    pub open spec fn in_bounds(self, x: int, y: int) -> bool {
        0 <= x < self.spec_width() && 0 <= y < self.spec_height()
    }

    pub open spec fn in_bounds_coord(self, c: (usize, usize)) -> bool {
        self.in_bounds(c.0 as int, c.1 as int)
    }

    pub open spec fn spec_index_of(self, x: int, y: int) -> int {
        y * self.spec_width() + x
    }

    /// The cell at an in-bounds coordinate.
    pub open spec fn at(self, x: int, y: int) -> TileModel {
        self.rows@[self.spec_index_of(x, y)]@
    }

    pub open spec fn cat(self, x: int, y: int) -> CategoryId {
        self.at(x, y).category
    }

    pub open spec fn at_coord(self, c: (usize, usize)) -> TileModel {
        self.at(c.0 as int, c.1 as int)
    }

    pub open spec fn cat_coord(self, c: (usize, usize)) -> CategoryId {
        self.at_coord(c).category
    }

    /// Every cell's liveness mask is `n_rules` bits wide.
    pub open spec fn masks_wf(self, n_rules: nat) -> bool {
        forall|x: int, y: int|
            self.in_bounds(x, y) ==> (#[trigger] self.at(x, y)).live.len() == n_rules
    }

    /// Two grids have the same dimensions and the same category at every
    /// coordinate; ages and liveness bits may differ.
    pub open spec fn same_categories(self, other: Grid) -> bool {
        &&& self.spec_width() == other.spec_width()
        &&& self.spec_height() == other.spec_height()
        &&& forall|x: int, y: int| self.in_bounds(x, y) ==> self.cat(x, y) == other.cat(x, y)
    }
}

/// Category agreement of grids is symmetric.
pub proof fn lemma_same_categories_symm(a: Grid, b: Grid)
    requires
        a.same_categories(b),
    ensures
        b.same_categories(a),
{
    assert forall|x: int, y: int| b.in_bounds(x, y) implies b.cat(x, y) == a.cat(x, y) by {
        assert(a.in_bounds(x, y));
    }
}

/// Category agreement of grids is transitive.
pub proof fn lemma_same_categories_trans(a: Grid, b: Grid, c: Grid)
    requires
        a.same_categories(b),
        b.same_categories(c),
    ensures
        a.same_categories(c),
{
    assert forall|x: int, y: int| a.in_bounds(x, y) implies a.cat(x, y) == c.cat(x, y) by {
        assert(a.cat(x, y) == b.cat(x, y));
        assert(b.in_bounds(x, y));
    }
}

/// An in-bounds coordinate's flat index is in range of the backing vector.
pub proof fn lemma_index_in_range(x: int, y: int, w: int, h: int)
    by (nonlinear_arith)
    requires
        0 <= x < w,
        0 <= y < h,
    ensures
        0 <= y * w + x < w * h,
{
}

/// Distinct in-bounds coordinates have distinct flat indices.
pub proof fn lemma_index_injective(x1: int, y1: int, x2: int, y2: int, w: int, h: int)
    by (nonlinear_arith)
    requires
        0 <= x1 < w,
        0 <= y1 < h,
        0 <= x2 < w,
        0 <= y2 < h,
        y1 * w + x1 == y2 * w + x2,
    ensures
        x1 == x2 && y1 == y2,
{
}

impl Grid {
    /// A fresh grid: every cell holds the default category, age zero, and a
    /// fully set liveness mask of `n_rules` bits.
    pub fn new(sx: usize, sy: usize, default_category: CategoryId, n_rules: usize) -> (g: Grid)
        requires
            sx * sy <= usize::MAX,
        ensures
            g.wf(),
            g.masks_wf(n_rules as nat),
            g.spec_width() == sx,
            g.spec_height() == sy,
            forall|x: int, y: int| g.in_bounds(x, y) ==> {
                &&& (#[trigger] g.at(x, y)).category == default_category
                &&& g.at(x, y).iterations == 0
                &&& fully_live(g.at(x, y).live)
            },
    {
        let total = sx * sy;
        let mut rows: Vec<Tile> = Vec::new();
        let mut i: usize = 0;
        while i < total
            invariant
                i <= total,
                rows@.len() == i,
                forall|k: int| 0 <= k < i ==> {
                    &&& (#[trigger] rows@[k])@.category == default_category
                    &&& rows@[k]@.iterations == 0
                    &&& rows@[k]@.live.len() == n_rules
                    &&& fully_live(rows@[k]@.live)
                },
            decreases total - i,
        {
            rows.push(Tile::new(default_category, n_rules));
            i = i + 1;
        }
        let g = Grid { sx, sy, rows };
        proof {
            assert forall|x: int, y: int| g.in_bounds(x, y) implies {
                &&& (#[trigger] g.at(x, y)).category == default_category
                &&& g.at(x, y).iterations == 0
                &&& fully_live(g.at(x, y).live)
            } by {
                lemma_index_in_range(x, y, g.spec_width(), g.spec_height());
            }
            assert forall|x: int, y: int| g.in_bounds(x, y) implies (#[trigger] g.at(
                x,
                y,
            )).live.len() == n_rules by {
                lemma_index_in_range(x, y, g.spec_width(), g.spec_height());
            }
        }
        g
    }

    /// The grid's dimensions, `(width, height)`.
    pub fn dimensions(&self) -> (r: (usize, usize))
        ensures
            r.0 == self.spec_width(),
            r.1 == self.spec_height(),
    {
        (self.sx, self.sy)
    }

    /// The cell at `(x, y)`, or `None` if the coordinate is out of bounds.
    pub fn get(&self, x: usize, y: usize) -> (r: Option<&Tile>)
        requires
            self.wf(),
        ensures
            match r {
                Some(t) => self.in_bounds(x as int, y as int) && t@ == self.at(x as int, y as int),
                None => !self.in_bounds(x as int, y as int),
            },
    {
        if x < self.sx && y < self.sy {
            let n = self.rows.len();
            proof {
                lemma_index_in_range(x as int, y as int, self.spec_width(), self.spec_height());
                assert(y * self.spec_width() + x < n);
            }
            Some(&self.rows[y * self.sx + x])
        } else {
            None
        }
    }

    /// Replaces the cell at `(x, y)`; a no-op returning `None` if the
    /// coordinate is out of bounds.
    pub fn set(&mut self, x: usize, y: usize, value: Tile) -> (r: Option<()>)
        requires
            old(self).wf(),
        ensures
            final(self).wf(),
            final(self).spec_width() == old(self).spec_width(),
            final(self).spec_height() == old(self).spec_height(),
            match r {
                Some(()) => {
                    &&& old(self).in_bounds(x as int, y as int)
                    &&& final(self).at(x as int, y as int) == value@
                    &&& forall|i: int, j: int|
                        old(self).in_bounds(i, j) && !(i == x && j == y) ==> final(self).at(i, j)
                            == old(self).at(i, j)
                },
                None => {
                    &&& !old(self).in_bounds(x as int, y as int)
                    &&& *final(self) == *old(self)
                },
            },
    {
        if x < self.sx && y < self.sy {
            let n = self.rows.len();
            proof {
                lemma_index_in_range(x as int, y as int, self.spec_width(), self.spec_height());
                assert(y * self.spec_width() + x < n);
            }
            self.rows.set(y * self.sx + x, value);
            proof {
                assert forall|i: int, j: int|
                    old(self).in_bounds(i, j) && !(i == x && j == y) implies self.at(i, j)
                    == old(self).at(i, j) by {
                    lemma_index_in_range(i, j, old(self).spec_width(), old(self).spec_height());
                    if old(self).spec_index_of(i, j) == old(self).spec_index_of(
                        x as int,
                        y as int,
                    ) {
                        lemma_index_injective(
                            i,
                            j,
                            x as int,
                            y as int,
                            old(self).spec_width(),
                            old(self).spec_height(),
                        );
                    }
                }
            }
            Some(())
        } else {
            None
        }
    }

    /// Ages every cell by one tick; categories and liveness bits are
    /// untouched.
    pub fn iterate(&mut self)
        requires
            old(self).wf(),
        ensures
            final(self).wf(),
            final(self).spec_width() == old(self).spec_width(),
            final(self).spec_height() == old(self).spec_height(),
            forall|x: int, y: int|
                old(self).in_bounds(x, y) ==> {
                    &&& (#[trigger] final(self).at(x, y)).category == old(self).at(x, y).category
                    &&& final(self).at(x, y).live == old(self).at(x, y).live
                    &&& final(self).at(x, y).iterations == aged(old(self).at(x, y).iterations)
                },
    {
        let n = self.rows.len();
        let mut k: usize = 0;
        while k < n
            invariant
                k <= n,
                self.rows@.len() == n,
                self.sx == old(self).sx,
                self.sy == old(self).sy,
                forall|m: int|
                    0 <= m < k ==> {
                        &&& (#[trigger] self.rows@[m])@.category == old(self).rows@[m]@.category
                        &&& self.rows@[m]@.live == old(self).rows@[m]@.live
                        &&& self.rows@[m]@.iterations == aged(old(self).rows@[m]@.iterations)
                    },
                forall|m: int| k <= m < n ==> #[trigger] self.rows@[m] == old(self).rows@[m],
            decreases n - k,
        {
            let t = &mut self.rows[k];
            t.iterate();
            k = k + 1;
        }
        proof {
            assert forall|x: int, y: int| old(self).in_bounds(x, y) implies {
                &&& (#[trigger] self.at(x, y)).category == old(self).at(x, y).category
                &&& self.at(x, y).live == old(self).at(x, y).live
                &&& self.at(x, y).iterations == aged(old(self).at(x, y).iterations)
            } by {
                lemma_index_in_range(x, y, old(self).spec_width(), old(self).spec_height());
            }
        }
    }

    /// Sets every cell's age back to zero; categories and liveness bits
    /// are untouched.
    pub fn reset_iterations(&mut self)
        requires
            old(self).wf(),
        ensures
            final(self).wf(),
            final(self).spec_width() == old(self).spec_width(),
            final(self).spec_height() == old(self).spec_height(),
            forall|x: int, y: int|
                old(self).in_bounds(x, y) ==> {
                    &&& (#[trigger] final(self).at(x, y)).category == old(self).at(x, y).category
                    &&& final(self).at(x, y).live == old(self).at(x, y).live
                    &&& final(self).at(x, y).iterations == 0
                },
    {
        let n = self.rows.len();
        let mut k: usize = 0;
        while k < n
            invariant
                k <= n,
                self.rows@.len() == n,
                self.sx == old(self).sx,
                self.sy == old(self).sy,
                forall|m: int|
                    0 <= m < k ==> {
                        &&& (#[trigger] self.rows@[m])@.category == old(self).rows@[m]@.category
                        &&& self.rows@[m]@.live == old(self).rows@[m]@.live
                        &&& self.rows@[m]@.iterations == 0
                    },
                forall|m: int| k <= m < n ==> #[trigger] self.rows@[m] == old(self).rows@[m],
            decreases n - k,
        {
            let t = &mut self.rows[k];
            t.iterations = 0;
            k = k + 1;
        }
        proof {
            assert forall|x: int, y: int| old(self).in_bounds(x, y) implies {
                &&& (#[trigger] self.at(x, y)).category == old(self).at(x, y).category
                &&& self.at(x, y).live == old(self).at(x, y).live
                &&& self.at(x, y).iterations == 0
            } by {
                lemma_index_in_range(x, y, old(self).spec_width(), old(self).spec_height());
            }
        }
    }

    /// Clears the liveness bit of rule `n` at one coordinate; nothing else
    /// changes.
    pub fn kill_at(&mut self, x: usize, y: usize, n: usize)
        requires
            old(self).wf(),
            old(self).in_bounds(x as int, y as int),
            n < old(self).at(x as int, y as int).live.len(),
        ensures
            final(self).wf(),
            final(self).spec_width() == old(self).spec_width(),
            final(self).spec_height() == old(self).spec_height(),
            final(self).at(x as int, y as int).category == old(self).at(
                x as int,
                y as int,
            ).category,
            final(self).at(x as int, y as int).iterations == old(self).at(
                x as int,
                y as int,
            ).iterations,
            final(self).at(x as int, y as int).live == old(self).at(x as int, y as int).live.update(
                n as int,
                false,
            ),
            forall|i: int, j: int|
                old(self).in_bounds(i, j) && !(i == x && j == y) ==> final(self).at(i, j) == old(
                    self,
                ).at(i, j),
    {
        let nn = self.rows.len();
        proof {
            lemma_index_in_range(x as int, y as int, self.spec_width(), self.spec_height());
            assert(y * self.spec_width() + x < nn);
        }
        let t = &mut self.rows[y * self.sx + x];
        t.kill(n);
        proof {
            self.lemma_single_index_frame(*old(self), x as int, y as int);
        }
    }

    /// Sets every liveness bit at one coordinate and resets its age; the
    /// category and every other cell are untouched.
    pub fn set_live_at(&mut self, x: usize, y: usize)
        requires
            old(self).wf(),
            old(self).in_bounds(x as int, y as int),
        ensures
            final(self).wf(),
            final(self).spec_width() == old(self).spec_width(),
            final(self).spec_height() == old(self).spec_height(),
            final(self).at(x as int, y as int).category == old(self).at(
                x as int,
                y as int,
            ).category,
            final(self).at(x as int, y as int).iterations == 0,
            final(self).at(x as int, y as int).live.len() == old(self).at(
                x as int,
                y as int,
            ).live.len(),
            fully_live(final(self).at(x as int, y as int).live),
            forall|i: int, j: int|
                old(self).in_bounds(i, j) && !(i == x && j == y) ==> final(self).at(i, j) == old(
                    self,
                ).at(i, j),
    {
        let nn = self.rows.len();
        proof {
            lemma_index_in_range(x as int, y as int, self.spec_width(), self.spec_height());
            assert(y * self.spec_width() + x < nn);
        }
        let t = &mut self.rows[y * self.sx + x];
        t.set_live();
        proof {
            self.lemma_single_index_frame(*old(self), x as int, y as int);
        }
    }

    /// After a write through the flat index of `(x, y)`, every other
    /// coordinate still reads its old cell.
    proof fn lemma_single_index_frame(self, pre: Grid, x: int, y: int)
        requires
            pre.wf(),
            pre.in_bounds(x, y),
            self.sx == pre.sx,
            self.sy == pre.sy,
            self.rows@.len() == pre.rows@.len(),
            forall|m: int|
                0 <= m < pre.rows@.len() && m != pre.spec_index_of(x, y) ==> #[trigger] self.rows@[m]
                    == pre.rows@[m],
        ensures
            forall|i: int, j: int|
                pre.in_bounds(i, j) && !(i == x && j == y) ==> self.at(i, j) == pre.at(i, j),
    {
        assert forall|i: int, j: int|
            pre.in_bounds(i, j) && !(i == x && j == y) implies self.at(i, j) == pre.at(i, j) by {
            lemma_index_in_range(i, j, pre.spec_width(), pre.spec_height());
            lemma_index_in_range(x, y, pre.spec_width(), pre.spec_height());
            if pre.spec_index_of(i, j) == pre.spec_index_of(x, y) {
                lemma_index_injective(i, j, x, y, pre.spec_width(), pre.spec_height());
            }
        }
    }
}

} // verus!
