//! The category index: a reverse mapping from category to the coordinates
//! currently holding it. It lets the engine seed matches without scanning
//! the whole grid. The grid stays the source of truth: the index is kept
//! exactly consistent with it, and every engine mutation updates both as
//! one atomic rewrite step.

use vstd::prelude::*;

use crate::category::CategoryId;
use crate::grid::Grid;

verus! {

/// One bucket per possible category code. `buckets[c]` holds each
/// coordinate whose cell currently has category code `c`, exactly once.
pub struct CategoryIndex {
    pub buckets: Vec<Vec<(usize, usize)>>,
}

/// `(x, y)` comes strictly before the scan position `(cx, cy)` in
/// row-major order.
spec fn before(c: (usize, usize), cx: int, cy: int) -> bool {
    (c.1 as int) < cy || ((c.1 as int) == cy && (c.0 as int) < cx)
}

impl CategoryIndex {
    pub open spec fn wf(self) -> bool {
        self.buckets@.len() == 256
    }

    pub open spec fn bucket(self, code: int) -> Seq<(usize, usize)> {
        self.buckets@[code]@
    }

    /// `(x, y)` sits in the bucket of its own grid category.
    pub open spec fn coord_in_bucket(self, g: Grid, x: int, y: int) -> bool {
        self.bucket(g.cat(x, y).code as int).contains((x as usize, y as usize))
    }

    /// The index mirrors the grid exactly: every bucket entry is an
    /// in-bounds coordinate whose cell carries that bucket's category, no
    /// entry appears twice, and every in-bounds coordinate appears in the
    /// bucket of its category (and, by the first clause, in no other).
    pub open spec fn consistent(self, g: Grid) -> bool {
        &&& self.wf()
        &&& forall|b: int, k: int|
            0 <= b < 256 && 0 <= k < self.bucket(b).len() ==> {
                let c = #[trigger] self.bucket(b)[k];
                g.in_bounds_coord(c) && g.cat_coord(c).code == b
            }
        &&& forall|b: int, k1: int, k2: int|
            0 <= b < 256 && 0 <= k1 < k2 < self.bucket(b).len() ==> #[trigger] self.bucket(b)[k1]
                != #[trigger] self.bucket(b)[k2]
        &&& forall|x: int, y: int|
            g.in_bounds(x, y) ==> #[trigger] self.coord_in_bucket(g, x, y)
    }
}

/// The index transition performed for one rewritten cell: `coord` left the
/// bucket of code `oc` (from one position `k`) and joined the bucket of
/// code `nc`.
pub open spec fn moved_coord(
    pre: CategoryIndex,
    post: CategoryIndex,
    coord: (usize, usize),
    oc: int,
    nc: int,
) -> bool {
    exists|k: int|
        0 <= k < pre.bucket(oc).len() && #[trigger] pre.bucket(oc)[k] == coord && (if oc == nc {
            post.bucket(oc) == pre.bucket(oc).remove(k).push(coord)
        } else {
            post.bucket(oc) == pre.bucket(oc).remove(k) && post.bucket(nc) == pre.bucket(nc).push(
                coord,
            )
        })
}

/// All buckets other than `oc` and `nc` kept their contents.
pub open spec fn other_buckets_unchanged(
    pre: CategoryIndex,
    post: CategoryIndex,
    oc: int,
    nc: int,
) -> bool {
    forall|b: int| 0 <= b < 256 && b != oc && b != nc ==> #[trigger] post.bucket(b) == pre.bucket(b)
}

/// Appends `c` to bucket `i`, leaving every other bucket untouched.
fn bucket_push(buckets: &mut Vec<Vec<(usize, usize)>>, i: usize, c: (usize, usize))
    requires
        i < old(buckets)@.len(),
    ensures
        final(buckets)@.len() == old(buckets)@.len(),
        final(buckets)@[i as int]@ == old(buckets)@[i as int]@.push(c),
        forall|j: int|
            0 <= j < old(buckets)@.len() && j != i ==> final(buckets)@[j] == old(buckets)@[j],
{
    let b = &mut buckets[i];
    b.push(c);
}

/// Removes position `k` of bucket `i`, leaving every other bucket
/// untouched.
fn bucket_remove(buckets: &mut Vec<Vec<(usize, usize)>>, i: usize, k: usize) -> (c: (usize, usize))
    requires
        i < old(buckets)@.len(),
        k < old(buckets)@[i as int]@.len(),
    ensures
        final(buckets)@.len() == old(buckets)@.len(),
        c == old(buckets)@[i as int]@[k as int],
        final(buckets)@[i as int]@ == old(buckets)@[i as int]@.remove(k as int),
        forall|j: int|
            0 <= j < old(buckets)@.len() && j != i ==> final(buckets)@[j] == old(buckets)@[j],
{
    let b = &mut buckets[i];
    b.remove(k)
}

impl CategoryIndex {
    /// Builds the index of a grid by one full scan: afterwards it is
    /// consistent with the grid.
    pub fn new(g: &Grid) -> (r: CategoryIndex)
        requires
            g.wf(),
        ensures
            r.consistent(*g),
    {
        let mut buckets: Vec<Vec<(usize, usize)>> = Vec::new();
        let mut i: usize = 0;
        while i < 256
            invariant
                i <= 256,
                buckets@.len() == i,
                forall|j: int| 0 <= j < i ==> (#[trigger] buckets@[j])@.len() == 0,
            decreases 256 - i,
        {
            buckets.push(Vec::new());
            i = i + 1;
        }
        let mut r = CategoryIndex { buckets };
        let mut cy: usize = 0;
        while cy < g.sy
            invariant
                cy <= g.sy,
                g.wf(),
                r.partial_consistent(*g, 0, cy as int),
            decreases g.sy - cy,
        {
            let mut cx: usize = 0;
            while cx < g.sx
                invariant
                    cx <= g.sx,
                    cy < g.sy,
                    g.wf(),
                    r.partial_consistent(*g, cx as int, cy as int),
                decreases g.sx - cx,
            {
                let cat: CategoryId = match g.get(cx, cy) {
                    Some(t) => t.category,
                    None => {
                        proof {
                            assert(false);
                        }
                        CategoryId { code: 0 }
                    },
                };
                let ghost pre = r;
                bucket_push(&mut r.buckets, cat.code as usize, (cx, cy));
                proof {
                    lemma_push_step(pre, r, *g, cx as int, cy as int, cat);
                }
                cx = cx + 1;
            }
            proof {
                lemma_row_step(r, *g, cy as int);
            }
            cy = cy + 1;
        }
        proof {
            assert forall|x: int, y: int| g.in_bounds(x, y) implies #[trigger] r.coord_in_bucket(
                *g,
                x,
                y,
            ) by {
                assert(before((x as usize, y as usize), 0, g.spec_height()));
            }
        }
        r
    }

    /// The index is consistent up to scan position `(cx, cy)`: the buckets
    /// hold exactly the coordinates before it, each in the bucket of its
    /// category, each once.
    spec fn partial_consistent(self, g: Grid, cx: int, cy: int) -> bool {
        &&& self.wf()
        &&& forall|b: int, k: int|
            0 <= b < 256 && 0 <= k < self.bucket(b).len() ==> {
                let c = #[trigger] self.bucket(b)[k];
                g.in_bounds_coord(c) && g.cat_coord(c).code == b && before(c, cx, cy)
            }
        &&& forall|b: int, k1: int, k2: int|
            0 <= b < 256 && 0 <= k1 < k2 < self.bucket(b).len() ==> #[trigger] self.bucket(b)[k1]
                != #[trigger] self.bucket(b)[k2]
        &&& forall|x: int, y: int|
            g.in_bounds(x, y) && before((x as usize, y as usize), cx, cy)
                ==> #[trigger] self.coord_in_bucket(g, x, y)
    }

    /// The coordinates currently holding `category`; the empty vector if
    /// none does.
    pub fn candidates(&self, category: CategoryId) -> (r: &Vec<(usize, usize)>)
        requires
            self.wf(),
        ensures
            r@ == self.bucket(category.code as int),
    {
        &self.buckets[category.code as usize]
    }

    /// Moves `coord` from the bucket of `old_category` to the bucket of
    /// `new_category`. Must be called exactly when the grid cell at
    /// `coord` changes category, as part of the same rewrite step.
    pub fn on_category_changed(
        &mut self,
        coord: (usize, usize),
        old_category: CategoryId,
        new_category: CategoryId,
    )
        requires
            old(self).wf(),
            old(self).bucket(old_category.code as int).contains(coord),
        ensures
            final(self).wf(),
            moved_coord(
                *old(self),
                *final(self),
                coord,
                old_category.code as int,
                new_category.code as int,
            ),
            other_buckets_unchanged(
                *old(self),
                *final(self),
                old_category.code as int,
                new_category.code as int,
            ),
    {
        let oc = old_category.code as usize;
        let nc = new_category.code as usize;
        let len = self.buckets[oc].len();
        let mut k: usize = 0;
        let mut found: Option<usize> = None;
        while k < len
            invariant
                k <= len,
                self.wf(),
                len == self.bucket(oc as int).len(),
                oc < 256,
                found is None ==> forall|m: int| 0 <= m < k ==> self.bucket(oc as int)[m] != coord,
                found matches Some(f) ==> f < len && self.bucket(oc as int)[f as int] == coord,
            decreases len - k,
        {
            if found.is_none() {
                let c = self.buckets[oc][k];
                if c.0 == coord.0 && c.1 == coord.1 {
                    found = Some(k);
                }
            }
            k = k + 1;
        }
        let f = match found {
            Some(f) => f,
            None => {
                proof {
                    let m = choose|m: int|
                        0 <= m < old(self).bucket(oc as int).len() && old(self).bucket(
                            oc as int,
                        )[m] == coord;
                    assert(false);
                }
                0
            },
        };
        let removed = bucket_remove(&mut self.buckets, oc, f);
        bucket_push(&mut self.buckets, nc, removed);
    }
}

/// One scan step of the index build: pushing the cell at `(cx, cy)` onto
/// the bucket of its category advances the partial consistency frontier by
/// one column.
proof fn lemma_push_step(pre: CategoryIndex, post: CategoryIndex, g: Grid, cx: int, cy: int, cat:
    CategoryId)
    requires
        pre.partial_consistent(g, cx, cy),
        g.in_bounds(cx, cy),
        g.cat(cx, cy) == cat,
        post.wf(),
        post.bucket(cat.code as int) == pre.bucket(cat.code as int).push(
            (cx as usize, cy as usize),
        ),
        forall|b: int|
            0 <= b < 256 && b != cat.code as int ==> #[trigger] post.bucket(b) == pre.bucket(b),
    ensures
        post.partial_consistent(g, cx + 1, cy),
{
    let code = cat.code as int;
    let coord = (cx as usize, cy as usize);
    // Containment, with the advanced frontier.
    assert forall|b: int, k: int| 0 <= b < 256 && 0 <= k < post.bucket(b).len() implies {
        let c = #[trigger] post.bucket(b)[k];
        g.in_bounds_coord(c) && g.cat_coord(c).code == b && before(c, cx + 1, cy)
    } by {
        if b == code {
            if k < pre.bucket(b).len() {
                assert(post.bucket(b)[k] == pre.bucket(b)[k]);
            } else {
                assert(post.bucket(b)[k] == coord);
            }
        } else {
            assert(post.bucket(b)[k] == pre.bucket(b)[k]);
        }
    }
    // No duplicates: the new entry was not scanned before.
    assert forall|b: int, k1: int, k2: int|
        0 <= b < 256 && 0 <= k1 < k2 < post.bucket(b).len() implies #[trigger] post.bucket(b)[k1]
        != #[trigger] post.bucket(b)[k2] by {
        if b == code && k2 == pre.bucket(b).len() {
            assert(post.bucket(b)[k1] == pre.bucket(b)[k1]);
            assert(before(pre.bucket(b)[k1], cx, cy));
            assert(!before(coord, cx, cy));
        } else {
            assert(post.bucket(b)[k1] == pre.bucket(b)[k1]);
            assert(post.bucket(b)[k2] == pre.bucket(b)[k2]);
        }
    }
    // Completeness up to the advanced frontier.
    assert forall|x: int, y: int|
        g.in_bounds(x, y) && before((x as usize, y as usize), cx + 1, cy)
            implies #[trigger] post.coord_in_bucket(g, x, y) by {
        if before((x as usize, y as usize), cx, cy) {
            assert(pre.coord_in_bucket(g, x, y));
            let b = g.cat(x, y).code as int;
            let m = choose|m: int|
                0 <= m < pre.bucket(b).len() && pre.bucket(b)[m] == (x as usize, y as usize);
            assert(post.bucket(b)[m] == (x as usize, y as usize));
        } else {
            assert(x == cx && y == cy);
            assert(post.bucket(code)[pre.bucket(code).len() as int] == coord);
        }
    }
}

/// Finishing a row moves the frontier to the start of the next one.
proof fn lemma_row_step(idx: CategoryIndex, g: Grid, cy: int)
    requires
        idx.partial_consistent(g, g.spec_width(), cy),
    ensures
        idx.partial_consistent(g, 0, cy + 1),
{
    assert forall|b: int, k: int| 0 <= b < 256 && 0 <= k < idx.bucket(b).len() implies {
        let c = #[trigger] idx.bucket(b)[k];
        g.in_bounds_coord(c) && g.cat_coord(c).code == b && before(c, 0, cy + 1)
    } by {
        let c = idx.bucket(b)[k];
        assert(before(c, g.spec_width(), cy));
        assert(g.in_bounds_coord(c));
    }
    assert forall|x: int, y: int|
        g.in_bounds(x, y) && before((x as usize, y as usize), 0, cy + 1)
            implies #[trigger] idx.coord_in_bucket(g, x, y) by {
        assert(before((x as usize, y as usize), g.spec_width(), cy));
    }
}

/// The heart of the rewrite step: if the grid changed exactly one cell's
/// category and the index moved exactly that coordinate between the two
/// buckets, a consistent index stays consistent.
pub proof fn lemma_consistent_after_rewrite(
    pre: CategoryIndex,
    post: CategoryIndex,
    g_pre: Grid,
    g_post: Grid,
    x: usize,
    y: usize,
    new_cat: CategoryId,
)
    requires
        pre.consistent(g_pre),
        g_pre.in_bounds(x as int, y as int),
        g_post.spec_width() == g_pre.spec_width(),
        g_post.spec_height() == g_pre.spec_height(),
        g_post.cat(x as int, y as int) == new_cat,
        forall|i: int, j: int|
            g_pre.in_bounds(i, j) && !(i == x && j == y) ==> g_post.cat(i, j) == g_pre.cat(i, j),
        post.wf(),
        moved_coord(pre, post, (x, y), g_pre.cat(x as int, y as int).code as int, new_cat.code as int),
        other_buckets_unchanged(pre, post, g_pre.cat(x as int, y as int).code as int, new_cat.code as int),
    ensures
        post.consistent(g_post),
{
    let oc = g_pre.cat(x as int, y as int).code as int;
    let nc = new_cat.code as int;
    let coord = (x, y);
    let k = choose|k: int|
        0 <= k < pre.bucket(oc).len() && #[trigger] pre.bucket(oc)[k] == coord && (if oc == nc {
            post.bucket(oc) == pre.bucket(oc).remove(k).push(coord)
        } else {
            post.bucket(oc) == pre.bucket(oc).remove(k) && post.bucket(nc) == pre.bucket(nc).push(
                coord,
            )
        });
    pre.bucket(oc).remove_ensures(k);
    // The removed occurrence was the only one, so the shrunk bucket does
    // not contain the coordinate at all.
    assert forall|m: int| 0 <= m < pre.bucket(oc).remove(k).len() implies pre.bucket(oc).remove(
        k,
    )[m] != coord by {
        if m < k {
            assert(pre.bucket(oc)[m] != pre.bucket(oc)[k]);
        } else {
            assert(pre.bucket(oc)[m + 1] != pre.bucket(oc)[k]);
        }
    }
    // Containment.
    assert forall|b: int, k2: int| 0 <= b < 256 && 0 <= k2 < post.bucket(b).len() implies {
        let c = #[trigger] post.bucket(b)[k2];
        g_post.in_bounds_coord(c) && g_post.cat_coord(c).code == b
    } by {
        let c = post.bucket(b)[k2];
        if b == nc && k2 == post.bucket(nc).len() - 1 && c == coord {
            assert(g_post.cat_coord(coord).code == nc);
        } else {
            // Identify the pre-bucket entry this one came from.
            if b == oc || b == nc {
                if oc == nc {
                    if k2 < pre.bucket(oc).remove(k).len() {
                        assert(c == pre.bucket(oc).remove(k)[k2]);
                        assert(c != coord);
                        if k2 < k {
                            assert(c == pre.bucket(oc)[k2]);
                        } else {
                            assert(c == pre.bucket(oc)[k2 + 1]);
                        }
                        assert(g_pre.in_bounds_coord(c) && g_pre.cat_coord(c).code == b);
                        assert(g_post.cat_coord(c) == g_pre.cat_coord(c));
                    } else {
                        assert(c == coord);
                        assert(g_post.cat_coord(coord).code == nc);
                    }
                } else if b == oc {
                    assert(c == pre.bucket(oc).remove(k)[k2]);
                    assert(c != coord);
                    if k2 < k {
                        assert(c == pre.bucket(oc)[k2]);
                    } else {
                        assert(c == pre.bucket(oc)[k2 + 1]);
                    }
                    assert(g_pre.in_bounds_coord(c) && g_pre.cat_coord(c).code == b);
                    assert(g_post.cat_coord(c) == g_pre.cat_coord(c));
                } else {
                    // b == nc != oc: an old entry of the new bucket, or the
                    // pushed coordinate.
                    if k2 < pre.bucket(nc).len() {
                        assert(c == pre.bucket(nc)[k2]);
                        assert(g_pre.cat_coord(c).code == nc);
                        assert(c != coord);
                        assert(g_post.cat_coord(c) == g_pre.cat_coord(c));
                    } else {
                        assert(c == coord);
                        assert(g_post.cat_coord(coord).code == nc);
                    }
                }
            } else {
                assert(post.bucket(b) == pre.bucket(b));
                assert(g_pre.in_bounds_coord(c) && g_pre.cat_coord(c).code == b);
                assert(c != coord) by {
                    assert(g_pre.cat_coord(coord).code == oc);
                }
                assert(g_post.cat_coord(c) == g_pre.cat_coord(c));
            }
        }
    }
    // No duplicates.
    assert forall|b: int, k1: int, k2: int|
        0 <= b < 256 && 0 <= k1 < k2 < post.bucket(b).len() implies #[trigger] post.bucket(b)[k1]
        != #[trigger] post.bucket(b)[k2] by {
        if b != oc && b != nc {
            assert(post.bucket(b) == pre.bucket(b));
        } else if oc == nc && b == oc {
            let s = pre.bucket(oc).remove(k);
            if k2 < s.len() {
                // Both are distinct entries of the shrunk bucket.
                lemma_remove_keeps_distinct(pre.bucket(oc), k, k1, k2);
            } else {
                assert(post.bucket(b)[k2] == coord);
                assert(post.bucket(b)[k1] == s[k1]);
                assert(s[k1] != coord);
            }
        } else if b == oc {
            lemma_remove_keeps_distinct(pre.bucket(oc), k, k1, k2);
        } else {
            // b == nc != oc
            if k2 < pre.bucket(nc).len() {
                assert(post.bucket(b)[k1] == pre.bucket(nc)[k1]);
                assert(post.bucket(b)[k2] == pre.bucket(nc)[k2]);
            } else {
                assert(post.bucket(b)[k2] == coord);
                assert(post.bucket(b)[k1] == pre.bucket(nc)[k1]);
                // A pre entry of the nc bucket carries category code nc,
                // but the coordinate carried oc.
                assert(g_pre.cat_coord(pre.bucket(nc)[k1]).code == nc);
                assert(g_pre.cat_coord(coord).code == oc);
            }
        }
    }
    // Completeness.
    assert forall|i: int, j: int| g_post.in_bounds(i, j) implies #[trigger] post.coord_in_bucket(
        g_post,
        i,
        j,
    ) by {
        let c = (i as usize, j as usize);
        if i == x && j == y {
            assert(g_post.cat(i, j).code as int == nc);
            assert(post.bucket(nc)[post.bucket(nc).len() - 1] == coord);
            assert(post.bucket(nc).contains(coord));
        } else {
            assert(g_pre.in_bounds(i, j));
            assert(pre.coord_in_bucket(g_pre, i, j));
            let b = g_pre.cat(i, j).code as int;
            assert(g_post.cat(i, j) == g_pre.cat(i, j));
            let m = choose|m: int| 0 <= m < pre.bucket(b).len() && pre.bucket(b)[m] == c;
            assert(c != coord);
            if b != oc && b != nc {
                assert(post.bucket(b) == pre.bucket(b));
                assert(post.bucket(b).contains(c));
            } else if b == oc {
                // Present in the shrunk bucket at a shifted position.
                if m < k {
                    assert(pre.bucket(oc).remove(k)[m] == c);
                    if oc == nc {
                        assert(post.bucket(b)[m] == c);
                    } else {
                        assert(post.bucket(b)[m] == c);
                    }
                    assert(post.bucket(b).contains(c));
                } else {
                    assert(m != k);
                    assert(pre.bucket(oc).remove(k)[m - 1] == c);
                    assert(post.bucket(b)[m - 1] == c);
                    assert(post.bucket(b).contains(c));
                }
            } else {
                // b == nc != oc: untouched old entries keep their position.
                assert(post.bucket(b)[m] == c);
                assert(post.bucket(b).contains(c));
            }
        }
    }
}

/// Entries of a bucket stay pairwise distinct when one position is
/// removed.
proof fn lemma_remove_keeps_distinct(s: Seq<(usize, usize)>, k: int, k1: int, k2: int)
    requires
        0 <= k < s.len(),
        0 <= k1 < k2 < s.remove(k).len(),
        forall|m1: int, m2: int| 0 <= m1 < m2 < s.len() ==> s[m1] != s[m2],
    ensures
        s.remove(k)[k1] != s.remove(k)[k2],
{
    s.remove_ensures(k);
    if k2 < k {
        assert(s.remove(k)[k1] == s[k1]);
        assert(s.remove(k)[k2] == s[k2]);
    } else if k1 < k {
        assert(s.remove(k)[k1] == s[k1]);
        assert(s.remove(k)[k2] == s[k2 + 1]);
    } else {
        assert(s.remove(k)[k1] == s[k1 + 1]);
        assert(s.remove(k)[k2] == s[k2 + 1]);
    }
}

/// Consistency only reads the grid's categories: a grid change that keeps
/// every category (aging, liveness updates) keeps the index consistent.
pub proof fn lemma_consistent_same_categories(idx: CategoryIndex, g1: Grid, g2: Grid)
    requires
        idx.consistent(g1),
        g1.same_categories(g2),
    ensures
        idx.consistent(g2),
{
    assert forall|b: int, k: int| 0 <= b < 256 && 0 <= k < idx.bucket(b).len() implies {
        let c = #[trigger] idx.bucket(b)[k];
        g2.in_bounds_coord(c) && g2.cat_coord(c).code == b
    } by {
        let c = idx.bucket(b)[k];
        assert(g1.in_bounds_coord(c) && g1.cat_coord(c).code == b);
        assert(g2.cat(c.0 as int, c.1 as int) == g1.cat(c.0 as int, c.1 as int));
    }
    assert forall|x: int, y: int| g2.in_bounds(x, y) implies #[trigger] idx.coord_in_bucket(
        g2,
        x,
        y,
    ) by {
        assert(g1.in_bounds(x, y));
        assert(idx.coord_in_bucket(g1, x, y));
        assert(g2.cat(x, y) == g1.cat(x, y));
    }
}

} // verus!
