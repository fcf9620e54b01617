//! The engine: owns the grid, the category index and the rule list, and
//! drives one simulation step at a time. Every mutation of the grid goes
//! through the engine, which keeps the index consistent with the grid as
//! part of the same rewrite step.

use vstd::prelude::*;

use crate::category::CategoryId;
use crate::grid::Grid;
use crate::index::{
    lemma_consistent_after_rewrite, lemma_consistent_same_categories, CategoryIndex,
};
use crate::matcher::{
    is_rev_match, lemma_is_rev_match_same_categories, lemma_sole_lookahead_same_categories,
    lemma_walk_ok_same_categories, search, sole_lookahead, step, walk_ok, Direction,
};
use crate::random::RandomSource;
use crate::rules::Pattern;
use crate::tile::{aged, fully_live, Tile, TileModel};

verus! {

/// Every rule has equally long sides, at least one element each.
pub open spec fn rules_wf(rules: Seq<Pattern>) -> bool {
    forall|i: int| 0 <= i < rules.len() ==> (#[trigger] rules[i]).wf()
}

/// `b` is one cardinal step away from `a`.
pub open spec fn adjacent(a: (usize, usize), b: (usize, usize)) -> bool {
    ||| (a.0 == b.0 && (a.1 as int == b.1 as int + 1 || b.1 as int == a.1 as int + 1))
    ||| (a.1 == b.1 && (a.0 as int == b.0 as int + 1 || b.0 as int == a.0 as int + 1))
}

/// `c` is one of the coordinates of `path`.
pub open spec fn in_coords(path: Seq<(usize, usize)>, c: (usize, usize)) -> bool {
    exists|m: int| #![trigger path[m]] 0 <= m < path.len() && path[m] == c
}

/// `c` is a coordinate of `path` or a cardinal neighbor of one.
pub open spec fn near_coords(path: Seq<(usize, usize)>, c: (usize, usize)) -> bool {
    exists|m: int| #![trigger path[m]] 0 <= m < path.len() && (path[m] == c || adjacent(path[m], c))
}

/// A cell just written or revived by a rewrite: age zero and every one of
/// the `n` liveness bits set.
pub open spec fn refreshed(t: TileModel, n: nat) -> bool {
    &&& t.iterations == 0
    &&& t.live.len() == n
    &&& fully_live(t.live)
}

/// Some straight line in the grid matches the rule's left-hand sequence.
pub open spec fn rule_has_match(g: Grid, r: Pattern) -> bool {
    exists|x: int, y: int, d: Direction| #[trigger] walk_ok(g, r.pattern_to_replace@, x, y, d)
}

/// Some rule of the list has a match somewhere in the grid.
pub open spec fn any_match(g: Grid, rules: Seq<Pattern>) -> bool {
    exists|i: int| 0 <= i < rules.len() && rule_has_match(g, #[trigger] rules[i])
}

/// Whether any rule can match depends only on the grid's categories: aging
/// cells or flipping liveness bits never creates or destroys a match. With
/// the engine's own guarantee that a tick without a match changes no
/// category, a converged engine stays converged.
pub proof fn lemma_any_match_same_categories(g1: Grid, g2: Grid, rules: Seq<Pattern>)
    requires
        g1.same_categories(g2),
    ensures
        any_match(g1, rules) == any_match(g2, rules),
{
    assert(g2.same_categories(g1));
    if any_match(g1, rules) {
        let i = choose|i: int| 0 <= i < rules.len() && rule_has_match(g1, #[trigger] rules[i]);
        let (x, y, d) = choose|x: int, y: int, d: Direction|
            #[trigger] walk_ok(g1, rules[i].pattern_to_replace@, x, y, d);
        lemma_walk_ok_same_categories(
            g1,
            g2,
            rules[i].pattern_to_replace@,
            x,
            y,
            d,
        );
        assert(walk_ok(g2, rules[i].pattern_to_replace@, x, y, d));
        assert(any_match(g2, rules));
    }
    if any_match(g2, rules) {
        let i = choose|i: int| 0 <= i < rules.len() && rule_has_match(g2, #[trigger] rules[i]);
        let (x, y, d) = choose|x: int, y: int, d: Direction|
            #[trigger] walk_ok(g2, rules[i].pattern_to_replace@, x, y, d);
        lemma_walk_ok_same_categories(
            g2,
            g1,
            rules[i].pattern_to_replace@,
            x,
            y,
            d,
        );
        assert(walk_ok(g1, rules[i].pattern_to_replace@, x, y, d));
        assert(any_match(g1, rules));
    }
}

/// Convergence is idempotent for an exhausted grid: a tick that reports
/// no match changes no category, so a grid in which no rule has any match
/// still has none afterwards — and the next tick must report no match
/// again, whatever the randomness draws.
pub proof fn lemma_convergence_stable(pre: Grid, post: Grid, rules: Seq<Pattern>)
    requires
        !any_match(pre, rules),
        pre.same_categories(post),
    ensures
        !any_match(post, rules),
{
    lemma_any_match_same_categories(pre, post, rules);
}

/// From `c` the matcher cannot miss a match of this rule: the start cell
/// carries the rule's head, and either the rule has length one (a
/// degenerate single-cell match) or exactly one direction passes the
/// lookahead test and the whole line along it matches. Whatever order the
/// shuffle draws, the search commits to that direction and succeeds.
pub open spec fn forced_match(g: Grid, rule: Pattern, c: (usize, usize)) -> bool {
    &&& g.in_bounds_coord(c)
    &&& g.cat_coord(c) == rule.pattern_to_replace@[0]
    &&& (rule.pattern_to_replace@.len() == 1 || exists|d: Direction|
        #[trigger] sole_lookahead(g, rule.pattern_to_replace@, c.0 as int, c.1 as int, d)
            && walk_ok(g, rule.pattern_to_replace@, c.0 as int, c.1 as int, d))
}

/// Whether a match is forced depends only on the grid's categories.
pub proof fn lemma_forced_match_same_categories(g1: Grid, g2: Grid, rule: Pattern, c: (usize, usize))
    requires
        g1.same_categories(g2),
        forced_match(g1, rule, c),
    ensures
        forced_match(g2, rule, c),
{
    assert(g1.cat(c.0 as int, c.1 as int) == g2.cat(c.0 as int, c.1 as int));
    if rule.pattern_to_replace@.len() != 1 {
        let d = choose|d: Direction|
            #[trigger] sole_lookahead(g1, rule.pattern_to_replace@, c.0 as int, c.1 as int, d)
                && walk_ok(g1, rule.pattern_to_replace@, c.0 as int, c.1 as int, d);
        lemma_sole_lookahead_same_categories(
            g1,
            g2,
            rule.pattern_to_replace@,
            c.0 as int,
            c.1 as int,
            d,
        );
        lemma_walk_ok_same_categories(g1, g2, rule.pattern_to_replace@, c.0 as int, c.1 as int, d);
        assert(sole_lookahead(g2, rule.pattern_to_replace@, c.0 as int, c.1 as int, d) && walk_ok(
            g2,
            rule.pattern_to_replace@,
            c.0 as int,
            c.1 as int,
            d,
        ));
    }
}

/// `c` is a scan candidate of a rule with head category `category` and
/// index `n`: it sits in that category's bucket and its liveness bit `n`
/// is still set.
pub open spec fn is_scan_candidate(
    grid: Grid,
    index: CategoryIndex,
    category: CategoryId,
    n: int,
    c: (usize, usize),
) -> bool {
    index.bucket(category.code as int).contains(c) && grid.at_coord(c).live[n]
}

/// Killing a cell for rule `n` removes it from that rule's scan
/// candidates: the liveness bit alone decides.
pub proof fn lemma_killed_cell_not_candidate(
    grid: Grid,
    index: CategoryIndex,
    category: CategoryId,
    n: int,
    c: (usize, usize),
)
    requires
        !grid.at_coord(c).live[n],
    ensures
        !is_scan_candidate(grid, index, category, n, c),
{
}

/// A cell left fully live — as every rewrite leaves its neighbors — is a
/// scan candidate again for every rule whose head it carries.
pub proof fn lemma_refreshed_cell_candidate(
    grid: Grid,
    index: CategoryIndex,
    n_rules: nat,
    n: int,
    c: (usize, usize),
)
    requires
        index.consistent(grid),
        grid.in_bounds_coord(c),
        refreshed(grid.at_coord(c), n_rules),
        0 <= n < n_rules,
    ensures
        is_scan_candidate(grid, index, grid.cat_coord(c), n, c),
{
    assert(index.coord_in_bucket(grid, c.0 as int, c.1 as int));
    assert(grid.at_coord(c).live[n]);
}

/// The scan candidates of one rule: exactly those coordinates of the
/// category's bucket whose liveness bit `n` is still set. A killed cell
/// never appears here until a neighboring write revives it.
pub fn live_candidates(
    grid: &Grid,
    index: &CategoryIndex,
    category: CategoryId,
    n: usize,
) -> (r: Vec<(usize, usize)>)
    requires
        grid.wf(),
        index.consistent(*grid),
        forall|x: int, y: int|
            grid.in_bounds(x, y) ==> n < (#[trigger] grid.at(x, y)).live.len(),
    ensures
        forall|c: (usize, usize)| #[trigger]
            r@.contains(c) <==> is_scan_candidate(*grid, *index, category, n as int, c),
        forall|k: int| 0 <= k < r@.len() ==> grid.in_bounds_coord(#[trigger] r@[k]),
{
    let bucket = index.candidates(category);
    let len = bucket.len();
    let mut r: Vec<(usize, usize)> = Vec::new();
    let mut k: usize = 0;
    while k < len
        invariant
            k <= len,
            grid.wf(),
            index.consistent(*grid),
            forall|x: int, y: int|
                grid.in_bounds(x, y) ==> n < (#[trigger] grid.at(x, y)).live.len(),
            len == index.bucket(category.code as int).len(),
            bucket@ == index.bucket(category.code as int),
            forall|m: int|
                0 <= m < r@.len() ==> {
                    &&& index.bucket(category.code as int).contains(#[trigger] r@[m])
                    &&& grid.in_bounds_coord(r@[m])
                    &&& grid.at_coord(r@[m]).live[n as int]
                },
            forall|m: int|
                0 <= m < k && grid.at_coord(
                    #[trigger] index.bucket(category.code as int)[m],
                ).live[n as int] ==> r@.contains(index.bucket(category.code as int)[m]),
        decreases len - k,
    {
        let c = bucket[k];
        proof {
            assert(index.bucket(category.code as int)[k as int] == c);
            assert(grid.in_bounds_coord(c));
        }
        let live = match grid.get(c.0, c.1) {
            Some(t) => t.is_sequence_live(n),
            None => {
                proof {
                    assert(false);
                }
                false
            },
        };
        if live {
            let ghost prefix = r@;
            r.push(c);
            proof {
                assert(index.bucket(category.code as int).contains(c)) by {
                    assert(index.bucket(category.code as int)[k as int] == c);
                }
                assert forall|m: int|
                    0 <= m < k + 1 && grid.at_coord(
                        #[trigger] index.bucket(category.code as int)[m],
                    ).live[n as int] implies r@.contains(
                    index.bucket(category.code as int)[m],
                ) by {
                    if m < k {
                        let e = index.bucket(category.code as int)[m];
                        assert(prefix.contains(e));
                        let w = choose|w: int| 0 <= w < prefix.len() && prefix[w] == e;
                        assert(r@[w] == e);
                    } else {
                        assert(r@[r@.len() - 1] == c);
                    }
                }
            }
        }
        k = k + 1;
    }
    proof {
        assert forall|c: (usize, usize)| #[trigger]
            r@.contains(c) <==> is_scan_candidate(*grid, *index, category, n as int, c) by {
            if r@.contains(c) {
                let m = choose|m: int| 0 <= m < r@.len() && r@[m] == c;
                assert(index.bucket(category.code as int).contains(r@[m]));
            }
            if index.bucket(category.code as int).contains(c) && grid.at_coord(c).live[n as int] {
                let m = choose|m: int|
                    0 <= m < index.bucket(category.code as int).len() && index.bucket(
                        category.code as int,
                    )[m] == c;
                assert(r@.contains(index.bucket(category.code as int)[m]));
            }
        }
    }
    r
}

/// What a tick reports: either one committed rewrite, naming the rule and
/// the rewritten path, or that no rule found a match, the convergence
/// signal.
pub enum TickOutcome {
    Applied { rule_index: usize, path: Vec<(usize, usize)> },
    Converged,
}

/// The rewrite engine. It owns the grid and the index; external readers
/// only look at consistent snapshots between ticks.
pub struct Engine {
    pub grid: Grid,
    pub tilemap: CategoryIndex,
    pub rewrite_rules: Vec<Pattern>,
    pub rng: RandomSource,
}

impl Engine {
    /// The engine's invariant: a well-formed grid whose liveness masks are
    /// one bit per rule, well-formed rules, and an index that exactly
    /// mirrors the grid.
    pub open spec fn wf(self) -> bool {
        &&& self.grid.wf()
        &&& rules_wf(self.rewrite_rules@)
        &&& self.grid.masks_wf(self.rewrite_rules@.len())
        &&& self.tilemap.consistent(self.grid)
    }

    /// A fresh engine: a uniform grid of the default category, every cell
    /// age zero and fully live, and the index built from it.
    pub fn new(
        sx: usize,
        sy: usize,
        default_category: CategoryId,
        rewrite_rules: Vec<Pattern>,
        rng: RandomSource,
    ) -> (e: Engine)
        requires
            sx * sy <= usize::MAX,
            rules_wf(rewrite_rules@),
        ensures
            e.wf(),
            e.grid.spec_width() == sx,
            e.grid.spec_height() == sy,
            e.rewrite_rules == rewrite_rules,
            e.rng == rng,
            forall|x: int, y: int|
                e.grid.in_bounds(x, y) ==> {
                    &&& (#[trigger] e.grid.at(x, y)).category == default_category
                    &&& e.grid.at(x, y).iterations == 0
                    &&& fully_live(e.grid.at(x, y).live)
                },
    {
        let grid = Grid::new(sx, sy, default_category, rewrite_rules.len());
        let tilemap = CategoryIndex::new(&grid);
        Engine { grid, tilemap, rewrite_rules, rng }
    }

    /// Rewrites one cell to the given category with a fresh age and a
    /// fully live mask, updating the index as part of the same step and
    /// marking the cell's cardinal neighbors fully live: a changed cell
    /// may re-enable rules pruned next to it. No other category changes.
    pub fn set_cell(&mut self, x: usize, y: usize, category: CategoryId)
        requires
            old(self).wf(),
            old(self).grid.in_bounds(x as int, y as int),
        ensures
            final(self).wf(),
            final(self).grid.spec_width() == old(self).grid.spec_width(),
            final(self).grid.spec_height() == old(self).grid.spec_height(),
            final(self).rewrite_rules == old(self).rewrite_rules,
            final(self).grid.at(x as int, y as int).category == category,
            refreshed(
                final(self).grid.at(x as int, y as int),
                old(self).rewrite_rules@.len(),
            ),
            forall|i: int, j: int|
                old(self).grid.in_bounds(i, j) && !(i == x && j == y) ==> #[trigger] final(self).grid.cat(i, j) == old(self).grid.cat(i, j),
            forall|i: int, j: int|
                old(self).grid.in_bounds(i, j) && adjacent((x, y), (i as usize, j as usize))
                    ==> refreshed(
                    #[trigger] final(self).grid.at(i, j),
                    old(self).rewrite_rules@.len(),
                ),
            forall|i: int, j: int|
                old(self).grid.in_bounds(i, j) && !(i == x && j == y) && !adjacent(
                    (x, y),
                    (i as usize, j as usize),
                ) ==> #[trigger] final(self).grid.at(i, j) == old(self).grid.at(i, j),
    {
        let old_category: CategoryId = match self.grid.get(x, y) {
            Some(t) => t.category,
            None => {
                proof {
                    assert(false);
                }
                category
            },
        };
        let n_rules = self.rewrite_rules.len();
        let ghost g_pre = self.grid;
        let ghost idx_pre = self.tilemap;
        let set_result = self.grid.set(x, y, Tile::new(category, n_rules));
        proof {
            assert(set_result is Some);
            assert(idx_pre.coord_in_bucket(g_pre, x as int, y as int));
        }
        self.tilemap.on_category_changed((x, y), old_category, category);
        proof {
            lemma_consistent_after_rewrite(
                idx_pre,
                self.tilemap,
                g_pre,
                self.grid,
                x,
                y,
                category,
            );
        }
        let ghost pre_liven = *self;
        self.liven_neighbors(x, y);
        proof {
            assert(!adjacent((x, y), (x, y)));
            assert(self.grid.at(x as int, y as int) == pre_liven.grid.at(x as int, y as int));
        }
    }

    /// Clears one cell's liveness bit for rule `n`; categories, and with
    /// them the index, are untouched.
    pub fn kill_cell(&mut self, x: usize, y: usize, n: usize)
        requires
            old(self).wf(),
            old(self).grid.in_bounds(x as int, y as int),
            n < old(self).rewrite_rules@.len(),
        ensures
            final(self).wf(),
            final(self).rewrite_rules == old(self).rewrite_rules,
            final(self).rng == old(self).rng,
            final(self).tilemap == old(self).tilemap,
            old(self).grid.same_categories(final(self).grid),
            final(self).grid.at(x as int, y as int).live == old(self).grid.at(
                x as int,
                y as int,
            ).live.update(n as int, false),
            final(self).grid.at(x as int, y as int).iterations == old(self).grid.at(
                x as int,
                y as int,
            ).iterations,
            forall|i: int, j: int|
                old(self).grid.in_bounds(i, j) && !(i == x && j == y) ==> final(self).grid.at(i, j)
                    == old(self).grid.at(i, j),
    {
        let ghost g_pre = self.grid;
        self.grid.kill_at(x, y, n);
        proof {
            assert(g_pre.same_categories(self.grid));
            lemma_consistent_same_categories(self.tilemap, g_pre, self.grid);
        }
    }

    /// Sets every liveness bit of one cell and resets its age: a neighbor
    /// changed, so every rule may apply here again. Categories, and with
    /// them the index, are untouched.
    fn liven_cell(&mut self, x: usize, y: usize)
        requires
            old(self).wf(),
            old(self).grid.in_bounds(x as int, y as int),
        ensures
            final(self).wf(),
            final(self).rewrite_rules == old(self).rewrite_rules,
            final(self).rng == old(self).rng,
            old(self).grid.same_categories(final(self).grid),
            refreshed(
                final(self).grid.at(x as int, y as int),
                old(self).rewrite_rules@.len(),
            ),
            final(self).grid.at(x as int, y as int).category == old(self).grid.at(
                x as int,
                y as int,
            ).category,
            forall|i: int, j: int|
                old(self).grid.in_bounds(i, j) && !(i == x && j == y) ==> final(self).grid.at(i, j)
                    == old(self).grid.at(i, j),
    {
        let ghost g_pre = self.grid;
        self.grid.set_live_at(x, y);
        proof {
            assert(g_pre.same_categories(self.grid));
            lemma_consistent_same_categories(self.tilemap, g_pre, self.grid);
        }
    }

    /// Marks the up-to-four cardinal neighbors of `(x, y)` fully live with
    /// age zero: the cell between them changed, so rules pruned there may
    /// apply again. No category changes.
    fn liven_neighbors(&mut self, x: usize, y: usize)
        requires
            old(self).wf(),
            old(self).grid.in_bounds(x as int, y as int),
        ensures
            final(self).wf(),
            final(self).rewrite_rules == old(self).rewrite_rules,
            final(self).rng == old(self).rng,
            old(self).grid.same_categories(final(self).grid),
            forall|i: int, j: int|
                old(self).grid.in_bounds(i, j) && adjacent((x, y), (i as usize, j as usize))
                    ==> refreshed(
                    #[trigger] final(self).grid.at(i, j),
                    old(self).rewrite_rules@.len(),
                ),
            forall|i: int, j: int|
                old(self).grid.in_bounds(i, j) && !adjacent((x, y), (i as usize, j as usize))
                    ==> #[trigger] final(self).grid.at(i, j) == old(self).grid.at(i, j),
    {
        match step(&self.grid, x, y, Direction::Right) {
            Some(p) => self.liven_cell(p.0, p.1),
            None => (),
        }
        let ghost e1 = *self;
        match step(&self.grid, x, y, Direction::Left) {
            Some(p) => self.liven_cell(p.0, p.1),
            None => (),
        }
        let ghost e2 = *self;
        match step(&self.grid, x, y, Direction::Up) {
            Some(p) => self.liven_cell(p.0, p.1),
            None => (),
        }
        let ghost e3 = *self;
        match step(&self.grid, x, y, Direction::Down) {
            Some(p) => self.liven_cell(p.0, p.1),
            None => (),
        }
        proof {
            let n = old(self).rewrite_rules@.len();
            assert forall|i: int, j: int|
                old(self).grid.in_bounds(i, j) && adjacent((x, y), (i as usize, j as usize))
                    implies refreshed(#[trigger] self.grid.at(i, j), n) by {
                if j == y && i == x + 1 {
                    assert(refreshed(e1.grid.at(i, j), n));
                    assert(e2.grid.at(i, j) == e1.grid.at(i, j));
                    assert(e3.grid.at(i, j) == e2.grid.at(i, j));
                    assert(self.grid.at(i, j) == e3.grid.at(i, j));
                } else if j == y && i == x - 1 {
                    assert(refreshed(e2.grid.at(i, j), n));
                    assert(e3.grid.at(i, j) == e2.grid.at(i, j));
                    assert(self.grid.at(i, j) == e3.grid.at(i, j));
                } else if i == x && j == y - 1 {
                    assert(refreshed(e3.grid.at(i, j), n));
                    assert(self.grid.at(i, j) == e3.grid.at(i, j));
                } else {
                    assert(i == x && j == y + 1);
                    assert(refreshed(self.grid.at(i, j), n));
                }
            }
            assert forall|i: int, j: int|
                old(self).grid.in_bounds(i, j) && !adjacent((x, y), (i as usize, j as usize))
                    implies #[trigger] self.grid.at(i, j) == old(self).grid.at(i, j) by {
            }
        }
    }

    /// Applies one chosen match: rewrites position `i` of the path to
    /// `replacement_pattern[i]` with age zero and a fully live mask,
    /// updates the index for each category change as part of the same
    /// step, and marks the cardinal neighbors of every rewritten cell
    /// fully live. Cells away from the path and its neighbors are
    /// untouched, and no category outside the path changes.
    pub fn apply(&mut self, rule_index: usize, path: &Vec<(usize, usize)>)
        requires
            old(self).wf(),
            rule_index < old(self).rewrite_rules@.len(),
            path@.len() == old(self).rewrite_rules@[rule_index as int].pattern_to_replace@.len(),
            forall|k: int|
                0 <= k < path@.len() ==> old(self).grid.in_bounds_coord(#[trigger] path@[k]),
            forall|k1: int, k2: int| 0 <= k1 < k2 < path@.len() ==> path@[k1] != path@[k2],
        ensures
            final(self).wf(),
            final(self).grid.spec_width() == old(self).grid.spec_width(),
            final(self).grid.spec_height() == old(self).grid.spec_height(),
            final(self).rewrite_rules == old(self).rewrite_rules,
            forall|k: int|
                0 <= k < path@.len() ==> {
                    &&& (#[trigger] final(self).grid.at_coord(path@[k])).category == old(self).rewrite_rules@[rule_index as int].replacement_pattern@[k]
                    &&& refreshed(
                        final(self).grid.at_coord(path@[k]),
                        old(self).rewrite_rules@.len(),
                    )
                },
            forall|i: int, j: int|
                old(self).grid.in_bounds(i, j) && !in_coords(path@, (i as usize, j as usize))
                    ==> #[trigger] final(self).grid.cat(i, j) == old(self).grid.cat(i, j),
            forall|i: int, j: int|
                old(self).grid.in_bounds(i, j) && near_coords(path@, (i as usize, j as usize))
                    ==> refreshed(
                    #[trigger] final(self).grid.at(i, j),
                    old(self).rewrite_rules@.len(),
                ),
            forall|i: int, j: int|
                old(self).grid.in_bounds(i, j) && !near_coords(path@, (i as usize, j as usize))
                    ==> #[trigger] final(self).grid.at(i, j) == old(self).grid.at(i, j),
    {
        let len = path.len();
        let mut k: usize = 0;
        while k < len
            invariant
                k <= len,
                len == path@.len(),
                self.wf(),
                self.grid.spec_width() == old(self).grid.spec_width(),
                self.grid.spec_height() == old(self).grid.spec_height(),
                self.rewrite_rules == old(self).rewrite_rules,
                rule_index < self.rewrite_rules@.len(),
                path@.len() == self.rewrite_rules@[rule_index as int].pattern_to_replace@.len(),
                forall|m: int|
                    0 <= m < path@.len() ==> old(self).grid.in_bounds_coord(#[trigger] path@[m]),
                forall|m1: int, m2: int| 0 <= m1 < m2 < path@.len() ==> path@[m1] != path@[m2],
                forall|m: int|
                    0 <= m < k ==> {
                        &&& (#[trigger] self.grid.at_coord(path@[m])).category == old(self).rewrite_rules@[rule_index as int].replacement_pattern@[m]
                        &&& refreshed(
                            self.grid.at_coord(path@[m]),
                            old(self).rewrite_rules@.len(),
                        )
                    },
                forall|i: int, j: int|
                    old(self).grid.in_bounds(i, j) && !in_coords(
                        path@.take(k as int),
                        (i as usize, j as usize),
                    ) ==> #[trigger] self.grid.cat(i, j) == old(self).grid.cat(i, j),
                forall|i: int, j: int|
                    old(self).grid.in_bounds(i, j) && near_coords(
                        path@.take(k as int),
                        (i as usize, j as usize),
                    ) ==> refreshed(
                        #[trigger] self.grid.at(i, j),
                        old(self).rewrite_rules@.len(),
                    ),
                forall|i: int, j: int|
                    old(self).grid.in_bounds(i, j) && !near_coords(
                        path@.take(k as int),
                        (i as usize, j as usize),
                    ) ==> #[trigger] self.grid.at(i, j) == old(self).grid.at(i, j),
            decreases len - k,
        {
            let c = path[k];
            let replacement: CategoryId = self.rewrite_rules[rule_index].replacement_pattern[k];
            let ghost pre_set = *self;
            self.set_cell(c.0, c.1, replacement);
            proof {
                assert(path@.take(k + 1) =~= path@.take(k as int).push(path@[k as int]));
                let n = old(self).rewrite_rules@.len();
                // Rewritten prefix cells keep their replacement category
                // and stay refreshed: a later write only revives them.
                assert forall|m: int| 0 <= m < k + 1 implies {
                    &&& (#[trigger] self.grid.at_coord(path@[m])).category == old(self).rewrite_rules@[rule_index as int].replacement_pattern@[m]
                    &&& refreshed(self.grid.at_coord(path@[m]), n)
                } by {
                    let p = path@[m];
                    if m < k {
                        assert(p != path@[k as int]);
                        assert(pre_set.grid.at_coord(p).category == old(self).rewrite_rules@[rule_index as int].replacement_pattern@[m]);
                        assert(self.grid.cat(p.0 as int, p.1 as int) == pre_set.grid.cat(
                            p.0 as int,
                            p.1 as int,
                        ));
                        if adjacent((c.0, c.1), p) {
                            assert(refreshed(self.grid.at_coord(p), n));
                        } else {
                            assert(self.grid.at_coord(p) == pre_set.grid.at_coord(p));
                        }
                    } else {
                        assert(p == (c.0, c.1));
                        assert(self.grid.at(c.0 as int, c.1 as int).category == replacement);
                        assert(refreshed(self.grid.at(c.0 as int, c.1 as int), n));
                        assert(replacement == old(self).rewrite_rules@[rule_index as int].replacement_pattern@[m]);
                    }
                }
                // Categories away from the processed prefix are untouched.
                assert forall|i: int, j: int|
                    old(self).grid.in_bounds(i, j) && !in_coords(
                        path@.take(k + 1),
                        (i as usize, j as usize),
                    ) implies #[trigger] self.grid.cat(i, j) == old(self).grid.cat(i, j) by {
                    let cc = (i as usize, j as usize);
                    assert(!in_coords(path@.take(k as int), cc)) by {
                        if in_coords(path@.take(k as int), cc) {
                            let m = choose|m: int|
                                #![trigger path@.take(k as int)[m]]
                                0 <= m < k && path@.take(k as int)[m] == cc;
                            assert(path@.take(k + 1)[m] == cc);
                        }
                    }
                    assert(cc != path@[k as int]) by {
                        if cc == path@[k as int] {
                            assert(path@.take(k + 1)[k as int] == cc);
                        }
                    }
                    assert(pre_set.grid.cat(i, j) == old(self).grid.cat(i, j));
                    assert(self.grid.cat(i, j) == pre_set.grid.cat(i, j));
                }
                // Cells near the processed prefix are refreshed.
                assert forall|i: int, j: int|
                    old(self).grid.in_bounds(i, j) && near_coords(
                        path@.take(k + 1),
                        (i as usize, j as usize),
                    ) implies refreshed(#[trigger] self.grid.at(i, j), n) by {
                    let cc = (i as usize, j as usize);
                    let m = choose|m: int|
                        #![trigger path@.take(k + 1)[m]]
                        0 <= m < k + 1 && (path@.take(k + 1)[m] == cc || adjacent(
                            path@.take(k + 1)[m],
                            cc,
                        ));
                    if m == k {
                        if path@[k as int] == cc {
                            assert(refreshed(self.grid.at_coord(cc), n));
                        } else {
                            assert(adjacent((c.0, c.1), cc));
                            assert(refreshed(self.grid.at(i, j), n));
                        }
                    } else {
                        assert(path@.take(k as int)[m] == path@.take(k + 1)[m]);
                        assert(near_coords(path@.take(k as int), cc));
                        assert(refreshed(pre_set.grid.at(i, j), n));
                        if cc == (c.0, c.1) {
                            assert(refreshed(self.grid.at(i, j), n));
                        } else if adjacent((c.0, c.1), cc) {
                            assert(refreshed(self.grid.at(i, j), n));
                        } else {
                            assert(self.grid.at(i, j) == pre_set.grid.at(i, j));
                        }
                    }
                }
                // Cells away from the prefix and its neighbors are exactly
                // as before.
                assert forall|i: int, j: int|
                    old(self).grid.in_bounds(i, j) && !near_coords(
                        path@.take(k + 1),
                        (i as usize, j as usize),
                    ) implies #[trigger] self.grid.at(i, j) == old(self).grid.at(i, j) by {
                    let cc = (i as usize, j as usize);
                    assert(!near_coords(path@.take(k as int), cc)) by {
                        if near_coords(path@.take(k as int), cc) {
                            let m = choose|m: int|
                                #![trigger path@.take(k as int)[m]]
                                0 <= m < k && (path@.take(k as int)[m] == cc || adjacent(
                                    path@.take(k as int)[m],
                                    cc,
                                ));
                            assert(path@.take(k + 1)[m] == path@.take(k as int)[m]);
                        }
                    }
                    assert(cc != path@[k as int] && !adjacent(path@[k as int], cc)) by {
                        assert(path@.take(k + 1)[k as int] == path@[k as int]);
                    }
                    assert(pre_set.grid.at(i, j) == old(self).grid.at(i, j));
                    assert(self.grid.at(i, j) == pre_set.grid.at(i, j));
                }
            }
            k = k + 1;
        }
        proof {
            assert(path@.take(len as int) =~= path@);
        }
    }

    /// One simulation step. Ages every cell, then tries the rules in
    /// priority order: for the first rule any of whose live candidates
    /// yields a match, one match is picked at random and applied, and the
    /// tick stops — at most one rewrite per tick. Where a live candidate
    /// has a forced match — one the shuffle cannot miss — the tick is
    /// obliged to apply something, and the rule it applies is never
    /// preceded by a rule that had a forced match of its own. A liveness
    /// bit is only ever cleared for a cell whose category no longer
    /// matches that rule's head. If no rule matches, the tick reports
    /// convergence and no category changes; and since whether a match
    /// exists depends only on categories, a grid with no match at all
    /// keeps reporting convergence, tick after tick.
    pub fn tick(&mut self) -> (r: TickOutcome)
        requires
            old(self).wf(),
        ensures
            final(self).wf(),
            final(self).grid.spec_width() == old(self).grid.spec_width(),
            final(self).grid.spec_height() == old(self).grid.spec_height(),
            final(self).rewrite_rules == old(self).rewrite_rules,
            r is Converged ==> old(self).grid.same_categories(final(self).grid),
            r is Converged ==> forall|x: int, y: int|
                old(self).grid.in_bounds(x, y) ==> {
                    &&& (#[trigger] final(self).grid.at(x, y)).iterations == aged(
                        old(self).grid.at(x, y).iterations,
                    )
                    &&& final(self).grid.at(x, y).live.len() == old(self).grid.at(x, y).live.len()
                    &&& forall|m: int|
                        0 <= m < old(self).grid.at(x, y).live.len() && (#[trigger] final(self).grid.at(x, y).live[m]) ==> old(self).grid.at(x, y).live[m]
                },
            !any_match(old(self).grid, old(self).rewrite_rules@) ==> r is Converged,
            r is Applied ==> any_match(old(self).grid, old(self).rewrite_rules@),
            (exists|i: int, c: (usize, usize)|
                0 <= i < old(self).rewrite_rules@.len() && #[trigger] is_scan_candidate(
                    old(self).grid,
                    old(self).tilemap,
                    old(self).rewrite_rules@[i].pattern_to_replace@[0],
                    i,
                    c,
                ) && forced_match(old(self).grid, old(self).rewrite_rules@[i], c)) ==> r
                is Applied,
            forall|x: int, y: int, i: int|
                old(self).grid.in_bounds(x, y) && 0 <= i < old(self).rewrite_rules@.len() && old(self).grid.at(x, y).live[i] && !(#[trigger] final(self).grid.at(x, y).live[i])
                    ==> final(self).grid.cat(x, y) != old(self).rewrite_rules@[i].pattern_to_replace@[0],
            r matches TickOutcome::Applied { rule_index, path } ==> {
                &&& rule_index < old(self).rewrite_rules@.len()
                &&& is_rev_match(
                    old(self).grid,
                    old(self).rewrite_rules@[rule_index as int].pattern_to_replace@,
                    path@,
                )
                &&& forall|k1: int, k2: int| 0 <= k1 < k2 < path@.len() ==> path@[k1] != path@[k2]
                &&& forall|k: int|
                    0 <= k < path@.len() ==> old(self).grid.in_bounds_coord(#[trigger] path@[k])
                &&& forall|k: int|
                    0 <= k < path@.len() ==> {
                        &&& (#[trigger] final(self).grid.at_coord(path@[k])).category == old(self).rewrite_rules@[rule_index as int].replacement_pattern@[k]
                        &&& refreshed(
                            final(self).grid.at_coord(path@[k]),
                            old(self).rewrite_rules@.len(),
                        )
                    }
                &&& forall|j: int, c: (usize, usize)|
                    0 <= j < rule_index ==> !(#[trigger] is_scan_candidate(
                        old(self).grid,
                        old(self).tilemap,
                        old(self).rewrite_rules@[j].pattern_to_replace@[0],
                        j,
                        c,
                    ) && forced_match(old(self).grid, old(self).rewrite_rules@[j], c))
                &&& forall|i: int, j: int|
                    old(self).grid.in_bounds(i, j) && !in_coords(path@, (i as usize, j as usize))
                        ==> #[trigger] final(self).grid.cat(i, j) == old(self).grid.cat(i, j)
                &&& forall|i: int, j: int|
                    old(self).grid.in_bounds(i, j) && near_coords(path@, (i as usize, j as usize))
                        ==> refreshed(
                        #[trigger] final(self).grid.at(i, j),
                        old(self).rewrite_rules@.len(),
                    )
                &&& forall|i: int, j: int|
                    old(self).grid.in_bounds(i, j) && !near_coords(path@, (i as usize, j as usize))
                        ==> {
                        &&& (#[trigger] final(self).grid.at(i, j)).iterations == aged(
                            old(self).grid.at(i, j).iterations,
                        )
                        &&& final(self).grid.at(i, j).live.len() == old(self).grid.at(
                            i,
                            j,
                        ).live.len()
                        &&& forall|m: int|
                            0 <= m < old(self).grid.at(i, j).live.len() && (#[trigger] final(self).grid.at(i, j).live[m]) ==> old(self).grid.at(i, j).live[m]
                    }
            },
    {
        self.grid.iterate();
        proof {
            assert(old(self).grid.same_categories(self.grid));
            lemma_consistent_same_categories(self.tilemap, old(self).grid, self.grid);
            assert forall|x: int, y: int| self.grid.in_bounds(x, y) implies (#[trigger] self.grid.at(
                x,
                y,
            )).live.len() == self.rewrite_rules@.len() by {
                assert(old(self).grid.at(x, y).live.len() == self.rewrite_rules@.len());
            }
        }
        let n_rules = self.rewrite_rules.len();
        let mut ri: usize = 0;
        while ri < n_rules
            invariant
                ri <= n_rules,
                n_rules == self.rewrite_rules@.len(),
                self.wf(),
                self.grid.spec_width() == old(self).grid.spec_width(),
                self.grid.spec_height() == old(self).grid.spec_height(),
                self.rewrite_rules == old(self).rewrite_rules,
                old(self).grid.same_categories(self.grid),
                forall|x: int, y: int|
                    old(self).grid.in_bounds(x, y) ==> (#[trigger] self.grid.at(x, y)).iterations
                        == aged(old(self).grid.at(x, y).iterations),
                forall|x: int, y: int|
                    old(self).grid.in_bounds(x, y) ==> (#[trigger] self.grid.at(x, y)).live.len()
                        == old(self).grid.at(x, y).live.len(),
                forall|x: int, y: int, m: int|
                    old(self).grid.in_bounds(x, y) && 0 <= m < old(self).grid.at(x, y).live.len()
                        && (#[trigger] self.grid.at(x, y).live[m]) ==> old(self).grid.at(
                        x,
                        y,
                    ).live[m],
                self.tilemap == old(self).tilemap,
                forall|x: int, y: int, j: int|
                    old(self).grid.in_bounds(x, y) && ri <= j < n_rules
                        ==> #[trigger] self.grid.at(x, y).live[j] == old(self).grid.at(
                        x,
                        y,
                    ).live[j],
                forall|x: int, y: int, j: int|
                    old(self).grid.in_bounds(x, y) && 0 <= j < n_rules && old(self).grid.at(
                        x,
                        y,
                    ).live[j] && !(#[trigger] self.grid.at(x, y).live[j]) ==> self.grid.cat(x, y)
                        != old(self).rewrite_rules@[j].pattern_to_replace@[0],
                forall|j: int, c: (usize, usize)|
                    0 <= j < ri ==> !(#[trigger] is_scan_candidate(
                        old(self).grid,
                        old(self).tilemap,
                        old(self).rewrite_rules@[j].pattern_to_replace@[0],
                        j,
                        c,
                    ) && forced_match(old(self).grid, old(self).rewrite_rules@[j], c)),
            decreases n_rules - ri,
        {
            proof {
                assert(self.rewrite_rules@[ri as int].wf());
            }
            let head: CategoryId = self.rewrite_rules[ri].pattern_to_replace[0];
            proof {
                assert forall|x: int, y: int| self.grid.in_bounds(x, y) implies ri < (
                #[trigger] self.grid.at(x, y)).live.len() by {
                    assert(self.grid.at(x, y).live.len() == self.rewrite_rules@.len());
                }
            }
            let cands = live_candidates(&self.grid, &self.tilemap, head, ri);
            let ghost lhs = self.rewrite_rules@[ri as int].pattern_to_replace@;
            proof {
                // The candidate list read now is exactly the scan-candidate
                // set of the pre-tick state: buckets are untouched, and
                // bits at index `ri` and above have not been pruned yet.
                assert forall|c: (usize, usize)| #[trigger]
                    cands@.contains(c) <==> is_scan_candidate(
                        old(self).grid,
                        old(self).tilemap,
                        head,
                        ri as int,
                        c,
                    ) by {
                    if cands@.contains(c) || self.tilemap.bucket(head.code as int).contains(c) {
                        let k = choose|k: int|
                            0 <= k < self.tilemap.bucket(head.code as int).len()
                                && self.tilemap.bucket(head.code as int)[k] == c;
                        assert(self.grid.in_bounds_coord(c));
                        assert(self.grid.at(c.0 as int, c.1 as int).live[ri as int] == old(self).grid.at(c.0 as int, c.1 as int).live[ri as int]);
                    }
                }
            }
            let mut found: Vec<Vec<(usize, usize)>> = Vec::new();
            let n_cands = cands.len();
            let mut ci: usize = 0;
            while ci < n_cands
                invariant
                    ci <= n_cands,
                    n_cands == cands@.len(),
                    ri < n_rules,
                    n_rules == self.rewrite_rules@.len(),
                    self.wf(),
                    self.grid.spec_width() == old(self).grid.spec_width(),
                    self.grid.spec_height() == old(self).grid.spec_height(),
                    self.rewrite_rules == old(self).rewrite_rules,
                    old(self).grid.same_categories(self.grid),
                    lhs == self.rewrite_rules@[ri as int].pattern_to_replace@,
                    lhs.len() >= 1,
                    head == lhs[0],
                    self.tilemap == old(self).tilemap,
                    forall|x: int, y: int, j: int|
                        old(self).grid.in_bounds(x, y) && ri < j < n_rules
                            ==> #[trigger] self.grid.at(x, y).live[j] == old(self).grid.at(
                            x,
                            y,
                        ).live[j],
                    forall|x: int, y: int, j: int|
                        old(self).grid.in_bounds(x, y) && 0 <= j < n_rules && old(self).grid.at(
                            x,
                            y,
                        ).live[j] && !(#[trigger] self.grid.at(x, y).live[j]) ==> self.grid.cat(
                            x,
                            y,
                        ) != old(self).rewrite_rules@[j].pattern_to_replace@[0],
                    forall|j: int, c2: (usize, usize)|
                        0 <= j < ri ==> !(#[trigger] is_scan_candidate(
                            old(self).grid,
                            old(self).tilemap,
                            old(self).rewrite_rules@[j].pattern_to_replace@[0],
                            j,
                            c2,
                        ) && forced_match(old(self).grid, old(self).rewrite_rules@[j], c2)),
                    forall|c2: (usize, usize)| #[trigger]
                        cands@.contains(c2) <==> is_scan_candidate(
                            old(self).grid,
                            old(self).tilemap,
                            head,
                            ri as int,
                            c2,
                        ),
                    found@.len() == 0 ==> forall|m: int|
                        0 <= m < ci ==> !forced_match(
                            old(self).grid,
                            old(self).rewrite_rules@[ri as int],
                            #[trigger] cands@[m],
                        ),
                    forall|x: int, y: int|
                        old(self).grid.in_bounds(x, y) ==> (#[trigger] self.grid.at(
                            x,
                            y,
                        )).iterations == aged(old(self).grid.at(x, y).iterations),
                    forall|x: int, y: int|
                        old(self).grid.in_bounds(x, y) ==> (#[trigger] self.grid.at(
                            x,
                            y,
                        )).live.len() == old(self).grid.at(x, y).live.len(),
                    forall|x: int, y: int, m: int|
                        old(self).grid.in_bounds(x, y) && 0 <= m < old(self).grid.at(
                            x,
                            y,
                        ).live.len() && (#[trigger] self.grid.at(x, y).live[m]) ==> old(self).grid.at(x, y).live[m],
                    forall|m: int|
                        0 <= m < cands@.len() ==> old(self).grid.in_bounds_coord(
                            #[trigger] cands@[m],
                        ),
                    forall|m: int|
                        0 <= m < found@.len() ==> {
                            &&& is_rev_match(old(self).grid, lhs, (#[trigger] found@[m])@)
                            &&& found@[m]@.len() == lhs.len()
                            &&& (forall|k1: int, k2: int|
                                0 <= k1 < k2 < found@[m]@.len() ==> found@[m]@[k1]
                                    != found@[m]@[k2])
                            &&& (forall|k: int|
                                0 <= k < found@[m]@.len() ==> old(self).grid.in_bounds_coord(
                                    #[trigger] found@[m]@[k],
                                ))
                        },
                decreases n_cands - ci,
            {
                let c = cands[ci];
                match search(&self.grid, &self.rewrite_rules[ri], c.0, c.1, &mut self.rng) {
                    Some(p) => {
                        proof {
                            crate::grid::lemma_same_categories_symm(old(self).grid, self.grid);
                            lemma_is_rev_match_same_categories(self.grid, old(self).grid, lhs, p@);
                        }
                        found.push(p);
                    },
                    None => {
                        proof {
                            // A forced match cannot fail: the search's own
                            // contract guarantees success there, so this
                            // candidate was not one.
                            assert(!forced_match(
                                old(self).grid,
                                old(self).rewrite_rules@[ri as int],
                                c,
                            )) by {
                                if forced_match(
                                    old(self).grid,
                                    old(self).rewrite_rules@[ri as int],
                                    c,
                                ) {
                                    lemma_forced_match_same_categories(
                                        old(self).grid,
                                        self.grid,
                                        old(self).rewrite_rules@[ri as int],
                                        c,
                                    );
                                    assert(self.grid.cat(c.0 as int, c.1 as int) == lhs[0]);
                                    if lhs.len() != 1 {
                                        let d = choose|d: Direction|
                                            #[trigger] sole_lookahead(
                                                self.grid,
                                                lhs,
                                                c.0 as int,
                                                c.1 as int,
                                                d,
                                            ) && walk_ok(
                                                self.grid,
                                                lhs,
                                                c.0 as int,
                                                c.1 as int,
                                                d,
                                            );
                                        assert(sole_lookahead(
                                            self.grid,
                                            lhs,
                                            c.0 as int,
                                            c.1 as int,
                                            d,
                                        ));
                                    }
                                    assert(false);
                                }
                            }
                        }
                        // The full attempt failed; if even the single-cell
                        // probe of `lhs[0]` fails at this start, prune the
                        // candidate for this rule until a neighbor write
                        // revives it.
                        let single_ok = match self.grid.get(c.0, c.1) {
                            Some(t) => t.category == head,
                            None => false,
                        };
                        if !single_ok {
                            let ghost pre_kill = *self;
                            self.kill_cell(c.0, c.1, ri);
                            proof {
                                crate::grid::lemma_same_categories_trans(
                                    old(self).grid,
                                    pre_kill.grid,
                                    self.grid,
                                );
                                // The one bit cleared belongs to a cell
                                // whose live category no longer matches
                                // this rule's head.
                                assert forall|x: int, y: int, j: int|
                                    old(self).grid.in_bounds(x, y) && 0 <= j < n_rules && old(self).grid.at(x, y).live[j] && !(#[trigger] self.grid.at(
                                        x,
                                        y,
                                    ).live[j]) implies self.grid.cat(x, y) != old(self).rewrite_rules@[j].pattern_to_replace@[0] by {
                                    if x == c.0 as int && y == c.1 as int && j == ri as int {
                                        assert(pre_kill.grid.at(x, y).category != head);
                                        assert(self.grid.cat(x, y) == pre_kill.grid.cat(x, y));
                                    } else {
                                        if !(x == c.0 as int && y == c.1 as int) {
                                            assert(self.grid.at(x, y) == pre_kill.grid.at(x, y));
                                        } else {
                                            assert(self.grid.at(x, y).live[j]
                                                == pre_kill.grid.at(x, y).live[j]);
                                        }
                                        assert(self.grid.cat(x, y) == pre_kill.grid.cat(x, y));
                                    }
                                }
                            }
                        }
                    },
                }
                ci = ci + 1;
            }
            if found.len() == 0 {
                proof {
                    // Every candidate of this rule was scanned and none
                    // had a forced match.
                    assert forall|c: (usize, usize)| #[trigger]
                        is_scan_candidate(
                            old(self).grid,
                            old(self).tilemap,
                            old(self).rewrite_rules@[ri as int].pattern_to_replace@[0],
                            ri as int,
                            c,
                        ) implies !forced_match(
                        old(self).grid,
                        old(self).rewrite_rules@[ri as int],
                        c,
                    ) by {
                        assert(cands@.contains(c));
                        let m = choose|m: int| 0 <= m < cands@.len() && cands@[m] == c;
                        assert(!forced_match(
                            old(self).grid,
                            old(self).rewrite_rules@[ri as int],
                            cands@[m],
                        ));
                    }
                }
            }
            if found.len() > 0 {
                let pick = self.rng.next_below(found.len());
                let path = found.swap_remove(pick);
                let ghost pre_apply = *self;
                self.apply(ri, &path);
                proof {
                    // The committed match shows the old grid had a match
                    // at all, so a matchless grid always converges.
                    let s = path@[path@.len() - 1];
                    let d = choose|d: Direction|
                        #[trigger] walk_ok(old(self).grid, lhs, s.0 as int, s.1 as int, d) && path@
                            == crate::matcher::rev_path(s.0 as int, s.1 as int, d, lhs.len());
                    assert(walk_ok(old(self).grid, lhs, s.0 as int, s.1 as int, d));
                    assert(rule_has_match(
                        old(self).grid,
                        old(self).rewrite_rules@[ri as int],
                    ));
                    assert(any_match(old(self).grid, old(self).rewrite_rules@));
                    // Categories outside the path chain back to the state
                    // before the tick.
                    assert forall|i: int, j: int|
                        old(self).grid.in_bounds(i, j) && !in_coords(
                            path@,
                            (i as usize, j as usize),
                        ) implies #[trigger] self.grid.cat(i, j) == old(self).grid.cat(i, j) by {
                        assert(pre_apply.grid.cat(i, j) == old(self).grid.cat(i, j));
                    }
                    // Any bit this tick cleared marks a cell whose
                    // category no longer matches that rule's head: the
                    // rewrite only set bits, never cleared one.
                    assert forall|x: int, y: int, i2: int|
                        old(self).grid.in_bounds(x, y) && 0 <= i2 < n_rules && old(self).grid.at(
                            x,
                            y,
                        ).live[i2] && !(#[trigger] self.grid.at(x, y).live[i2])
                        implies self.grid.cat(x, y) != old(self).rewrite_rules@[i2].pattern_to_replace@[0] by {
                        let cc = (x as usize, y as usize);
                        if near_coords(path@, cc) {
                            assert(refreshed(self.grid.at(x, y), old(self).rewrite_rules@.len()));
                            assert(self.grid.at(x, y).live[i2]);
                        } else {
                            assert(self.grid.at(x, y) == pre_apply.grid.at(x, y));
                            assert(pre_apply.grid.cat(x, y) != old(self).rewrite_rules@[i2].pattern_to_replace@[0]);
                            assert(self.grid.cat(x, y) == pre_apply.grid.cat(x, y));
                        }
                    }
                }
                return TickOutcome::Applied { rule_index: ri, path };
            }
            ri = ri + 1;
        }
        TickOutcome::Converged
    }
}

} // verus!
