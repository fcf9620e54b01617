//! The pattern matcher: a best-effort directional search for one
//! straight-line occurrence of a rule's left-hand sequence.
//!
//! The search probes the four cardinal neighbor offsets of the start cell
//! in a randomly shuffled order and commits to the first offset whose
//! neighbor carries the second left-hand category; the rest of the match is
//! a straight walk along that one offset, with no backtracking into the
//! other directions. This deliberately trades completeness for linear-time
//! probes: a match that needed a different initial direction is missed.

use vstd::prelude::*;

use crate::category::CategoryId;
use crate::grid::Grid;
use crate::random::RandomSource;
use crate::rules::Pattern;

verus! {

/// One of the four cardinal directions a match can run along.
#[derive(Clone, Copy, PartialEq, Eq, Structural, Debug)]
pub enum Direction {
    Left,
    Right,
    Up,
    Down,
}

pub open spec fn dir_dx(d: Direction) -> int {
    match d {
        Direction::Left => -1,
        Direction::Right => 1,
        Direction::Up => 0,
        Direction::Down => 0,
    }
}

pub open spec fn dir_dy(d: Direction) -> int {
    match d {
        Direction::Left => 0,
        Direction::Right => 0,
        Direction::Up => -1,
        Direction::Down => 1,
    }
}

/// The coordinate `i` steps along `d` from `(x, y)`.
pub open spec fn pos_along(x: int, y: int, d: Direction, i: int) -> (int, int) {
    (x + i * dir_dx(d), y + i * dir_dy(d))
}

/// The whole left-hand sequence lies along `d` from `(x, y)`: every step is
/// in bounds and carries the expected category.
pub open spec fn walk_ok(g: Grid, lhs: Seq<CategoryId>, x: int, y: int, d: Direction) -> bool {
    forall|i: int| 0 <= i < lhs.len() ==> {
        let p = #[trigger] pos_along(x, y, d, i);
        g.in_bounds(p.0, p.1) && g.cat(p.0, p.1) == lhs[i]
    }
}

/// The direction-commitment test of the search: the neighbor one step
/// along `d` exists and carries the second left-hand category.
pub open spec fn lookahead_ok(g: Grid, lhs: Seq<CategoryId>, x: int, y: int, d: Direction) -> bool {
    let p = pos_along(x, y, d, 1);
    g.in_bounds(p.0, p.1) && g.cat(p.0, p.1) == lhs[1]
}

/// The matched path as the search returns it: deepest coordinate first,
/// the start coordinate last. `path[j]` is `len - 1 - j` steps along `d`.
pub open spec fn rev_path(x: int, y: int, d: Direction, len: nat) -> Seq<(usize, usize)> {
    Seq::new(
        len,
        |j: int|
            {
                let p = pos_along(x, y, d, len - 1 - j);
                (p.0 as usize, p.1 as usize)
            },
    )
}

/// `path` is a straight-line match of `lhs`, deepest coordinate first:
/// its last element is the start, and walking one cardinal direction from
/// there visits categories `lhs[0]`, `lhs[1]`, ... in order.
pub open spec fn is_rev_match(g: Grid, lhs: Seq<CategoryId>, path: Seq<(usize, usize)>) -> bool {
    &&& path.len() == lhs.len()
    &&& lhs.len() >= 1
    &&& exists|d: Direction|
        #[trigger] walk_ok(g, lhs, path[path.len() - 1].0 as int, path[path.len() - 1].1 as int, d)
            && path == rev_path(
            path[path.len() - 1].0 as int,
            path[path.len() - 1].1 as int,
            d,
            lhs.len(),
        )
}

/// Exactly one direction passes the lookahead test from `(x, y)`, namely
/// `d0`, and the start cell itself carries `lhs[0]`.
pub open spec fn sole_lookahead(
    g: Grid,
    lhs: Seq<CategoryId>,
    x: int,
    y: int,
    d0: Direction,
) -> bool {
    &&& lhs.len() >= 2
    &&& g.in_bounds(x, y)
    &&& g.cat(x, y) == lhs[0]
    &&& lookahead_ok(g, lhs, x, y, d0)
    &&& forall|d2: Direction| lookahead_ok(g, lhs, x, y, d2) ==> d2 == d0
}

/// Stepping one further along a line lands one offset away from the
/// previous position.
pub proof fn lemma_pos_step(x: int, y: int, d: Direction, i: int)
    ensures
        pos_along(x, y, d, i + 1).0 == pos_along(x, y, d, i).0 + dir_dx(d),
        pos_along(x, y, d, i + 1).1 == pos_along(x, y, d, i).1 + dir_dy(d),
{
    let dx = dir_dx(d);
    let dy = dir_dy(d);
    assert((i + 1) * dx == i * dx + dx) by (nonlinear_arith);
    assert((i + 1) * dy == i * dy + dy) by (nonlinear_arith);
}

/// Distinct numbers of steps along one direction land on distinct in-bounds
/// coordinates.
pub proof fn lemma_line_points_distinct(
    g: Grid,
    x: int,
    y: int,
    d: Direction,
    i1: int,
    i2: int,
)
    requires
        i1 != i2,
        g.in_bounds(pos_along(x, y, d, i1).0, pos_along(x, y, d, i1).1),
        g.in_bounds(pos_along(x, y, d, i2).0, pos_along(x, y, d, i2).1),
    ensures
        (pos_along(x, y, d, i1).0 as usize, pos_along(x, y, d, i1).1 as usize) != (
            pos_along(x, y, d, i2).0 as usize,
            pos_along(x, y, d, i2).1 as usize,
        ),
{
    match d {
        Direction::Left => {
            assert(i1 * -1 != i2 * -1) by (nonlinear_arith)
                requires
                    i1 != i2,
            ;
        },
        Direction::Right => {
            assert(i1 * 1 != i2 * 1) by (nonlinear_arith)
                requires
                    i1 != i2,
            ;
        },
        Direction::Up => {
            assert(i1 * -1 != i2 * -1) by (nonlinear_arith)
                requires
                    i1 != i2,
            ;
        },
        Direction::Down => {
            assert(i1 * 1 != i2 * 1) by (nonlinear_arith)
                requires
                    i1 != i2,
            ;
        },
    }
}

/// A matched path never contains the same coordinate twice.
pub proof fn lemma_rev_path_distinct(g: Grid, lhs: Seq<CategoryId>, x: int, y: int, d: Direction)
    requires
        walk_ok(g, lhs, x, y, d),
    ensures
        forall|j1: int, j2: int|
            0 <= j1 < j2 < lhs.len() ==> #[trigger] rev_path(x, y, d, lhs.len())[j1]
                != #[trigger] rev_path(x, y, d, lhs.len())[j2],
{
    let len = lhs.len();
    assert forall|j1: int, j2: int| 0 <= j1 < j2 < len implies #[trigger] rev_path(
        x,
        y,
        d,
        len,
    )[j1] != #[trigger] rev_path(x, y, d, len)[j2] by {
        lemma_line_points_distinct(g, x, y, d, len - 1 - j1, len - 1 - j2);
    }
}

/// Whether a line matches depends only on the categories of the grid, not
/// on ages or liveness bits.
pub proof fn lemma_walk_ok_same_categories(
    g1: Grid,
    g2: Grid,
    lhs: Seq<CategoryId>,
    x: int,
    y: int,
    d: Direction,
)
    requires
        g1.same_categories(g2),
    ensures
        walk_ok(g1, lhs, x, y, d) == walk_ok(g2, lhs, x, y, d),
{
    if walk_ok(g1, lhs, x, y, d) {
        assert forall|i: int| 0 <= i < lhs.len() implies {
            let p = #[trigger] pos_along(x, y, d, i);
            g2.in_bounds(p.0, p.1) && g2.cat(p.0, p.1) == lhs[i]
        } by {
            let p = pos_along(x, y, d, i);
            assert(g1.in_bounds(p.0, p.1) && g1.cat(p.0, p.1) == lhs[i]);
        }
    } else if walk_ok(g2, lhs, x, y, d) {
        assert forall|i: int| 0 <= i < lhs.len() implies {
            let p = #[trigger] pos_along(x, y, d, i);
            g1.in_bounds(p.0, p.1) && g1.cat(p.0, p.1) == lhs[i]
        } by {
            let p = pos_along(x, y, d, i);
            assert(g2.in_bounds(p.0, p.1) && g2.cat(p.0, p.1) == lhs[i]);
        }
    }
}

/// The lookahead test depends only on the grid's categories.
pub proof fn lemma_lookahead_ok_same_categories(
    g1: Grid,
    g2: Grid,
    lhs: Seq<CategoryId>,
    x: int,
    y: int,
    d: Direction,
)
    requires
        g1.same_categories(g2),
    ensures
        lookahead_ok(g1, lhs, x, y, d) == lookahead_ok(g2, lhs, x, y, d),
{
    let p = pos_along(x, y, d, 1);
    if g1.in_bounds(p.0, p.1) {
        assert(g1.cat(p.0, p.1) == g2.cat(p.0, p.1));
    }
}

/// Being the sole qualifying direction depends only on the grid's
/// categories.
pub proof fn lemma_sole_lookahead_same_categories(
    g1: Grid,
    g2: Grid,
    lhs: Seq<CategoryId>,
    x: int,
    y: int,
    d0: Direction,
)
    requires
        g1.same_categories(g2),
        sole_lookahead(g1, lhs, x, y, d0),
    ensures
        sole_lookahead(g2, lhs, x, y, d0),
{
    assert(g1.cat(x, y) == g2.cat(x, y));
    lemma_lookahead_ok_same_categories(g1, g2, lhs, x, y, d0);
    assert forall|d2: Direction| lookahead_ok(g2, lhs, x, y, d2) implies d2 == d0 by {
        lemma_lookahead_ok_same_categories(g1, g2, lhs, x, y, d2);
    }
}

/// A matched path stays a match on any grid with the same categories.
pub proof fn lemma_is_rev_match_same_categories(
    g1: Grid,
    g2: Grid,
    lhs: Seq<CategoryId>,
    path: Seq<(usize, usize)>,
)
    requires
        g1.same_categories(g2),
        is_rev_match(g1, lhs, path),
    ensures
        is_rev_match(g2, lhs, path),
{
    let d = choose|d: Direction|
        #[trigger] walk_ok(g1, lhs, path[path.len() - 1].0 as int, path[path.len() - 1].1 as int, d)
            && path == rev_path(
            path[path.len() - 1].0 as int,
            path[path.len() - 1].1 as int,
            d,
            lhs.len(),
        );
    lemma_walk_ok_same_categories(
        g1,
        g2,
        lhs,
        path[path.len() - 1].0 as int,
        path[path.len() - 1].1 as int,
        d,
    );
    assert(walk_ok(g2, lhs, path[path.len() - 1].0 as int, path[path.len() - 1].1 as int, d));
}

/// The in-bounds neighbor one step along `d`, or `None` at the grid's edge;
/// out-of-bounds neighbors are never aliased to an in-bounds cell.
pub fn step(g: &Grid, x: usize, y: usize, d: Direction) -> (r: Option<(usize, usize)>)
    requires
        g.in_bounds(x as int, y as int),
    ensures
        match r {
            Some(p) => {
                &&& g.in_bounds(x as int + dir_dx(d), y as int + dir_dy(d))
                &&& p.0 == x as int + dir_dx(d)
                &&& p.1 == y as int + dir_dy(d)
            },
            None => !g.in_bounds(x as int + dir_dx(d), y as int + dir_dy(d)),
        },
{
    match d {
        Direction::Left => if x > 0 {
            Some((x - 1, y))
        } else {
            None
        },
        Direction::Right => if x + 1 < g.sx {
            Some((x + 1, y))
        } else {
            None
        },
        Direction::Up => if y > 0 {
            Some((x, y - 1))
        } else {
            None
        },
        Direction::Down => if y + 1 < g.sy {
            Some((x, y + 1))
        } else {
            None
        },
    }
}

/// The four cardinal directions in a randomly shuffled order.
pub fn shuffled_directions(rng: &mut RandomSource) -> (r: Vec<Direction>)
    ensures
        r@.len() == 4,
        forall|d: Direction| r@.contains(d),
{
    let mut dirs: Vec<Direction> = Vec::new();
    dirs.push(Direction::Left);
    dirs.push(Direction::Right);
    dirs.push(Direction::Up);
    dirs.push(Direction::Down);
    proof {
        assert(dirs@[0] == Direction::Left);
        assert(dirs@[1] == Direction::Right);
        assert(dirs@[2] == Direction::Up);
        assert(dirs@[3] == Direction::Down);
        assert forall|d: Direction| dirs@.contains(d) by {
            match d {
                Direction::Left => assert(dirs@[0] == d),
                Direction::Right => assert(dirs@[1] == d),
                Direction::Up => assert(dirs@[2] == d),
                Direction::Down => assert(dirs@[3] == d),
            }
        }
    }
    let mut i: usize = 0;
    while i < 3
        invariant
            i <= 3,
            dirs@.len() == 4,
            forall|d: Direction| dirs@.contains(d),
        decreases 3 - i,
    {
        let j = i + rng.next_below(4 - i);
        let ghost pre = dirs@;
        let a = dirs[i];
        let b = dirs[j];
        dirs.set(i, b);
        dirs.set(j, a);
        proof {
            assert forall|d: Direction| dirs@.contains(d) by {
                assert(pre.contains(d));
                let k = choose|k: int| 0 <= k < pre.len() && pre[k] == d;
                if k == i {
                    assert(dirs@[j as int] == d);
                } else if k == j {
                    assert(dirs@[i as int] == d);
                } else {
                    assert(dirs@[k] == d);
                }
            }
        }
        i = i + 1;
    }
    dirs
}

/// Attempts to find one straight-line occurrence of the rule's left-hand
/// sequence starting at `(x, y)`.
///
/// A returned path is always a genuine match: the right length, duplicate
/// free, deepest coordinate first, straight along one cardinal direction,
/// ending at the start coordinate. Failure is guaranteed when the start
/// cell does not carry `lhs[0]` or no direction passes the lookahead test,
/// and when exactly one direction passes the lookahead the result is fully
/// determined, whatever the shuffle: the line along that direction decides.
pub fn search(
    grid: &Grid,
    rule: &Pattern,
    x: usize,
    y: usize,
    rng: &mut RandomSource,
) -> (r: Option<Vec<(usize, usize)>>)
    requires
        grid.wf(),
        rule.wf(),
    ensures
        r matches Some(path) ==> {
            &&& is_rev_match(*grid, rule.pattern_to_replace@, path@)
            &&& path@.len() == rule.pattern_to_replace@.len()
            &&& path@[path@.len() - 1] == (x, y)
            &&& forall|j1: int, j2: int|
                0 <= j1 < j2 < path@.len() ==> path@[j1] != path@[j2]
            &&& forall|j: int| 0 <= j < path@.len() ==> grid.in_bounds_coord(#[trigger] path@[j])
        },
        (!grid.in_bounds(x as int, y as int) || grid.cat(x as int, y as int)
            != rule.pattern_to_replace@[0]) ==> r is None,
        (grid.in_bounds(x as int, y as int) && grid.cat(x as int, y as int)
            == rule.pattern_to_replace@[0] && rule.pattern_to_replace@.len() == 1) ==> r is Some,
        (grid.in_bounds(x as int, y as int) && grid.cat(x as int, y as int)
            == rule.pattern_to_replace@[0] && rule.pattern_to_replace@.len() >= 2 && (forall|
            d: Direction,
        |
            !lookahead_ok(*grid, rule.pattern_to_replace@, x as int, y as int, d))) ==> r is None,
        forall|d0: Direction|
            sole_lookahead(*grid, rule.pattern_to_replace@, x as int, y as int, d0) && walk_ok(
                *grid,
                rule.pattern_to_replace@,
                x as int,
                y as int,
                d0,
            ) ==> (r matches Some(path) && path@ == rev_path(
                x as int,
                y as int,
                d0,
                rule.pattern_to_replace@.len(),
            )),
        forall|d0: Direction|
            sole_lookahead(*grid, rule.pattern_to_replace@, x as int, y as int, d0) && !walk_ok(
                *grid,
                rule.pattern_to_replace@,
                x as int,
                y as int,
                d0,
            ) ==> r is None,
{
    let ghost lhs = rule.pattern_to_replace@;
    let l = rule.pattern_to_replace.len();
    let start_ok = match grid.get(x, y) {
        Some(t) => t.category == rule.pattern_to_replace[0],
        None => false,
    };
    if !start_ok {
        return None;
    }
    if l == 1 {
        let mut path: Vec<(usize, usize)> = Vec::new();
        path.push((x, y));
        proof {
            let d = Direction::Right;
            assert forall|i: int| 0 <= i < lhs.len() implies {
                let p = #[trigger] pos_along(x as int, y as int, d, i);
                grid.in_bounds(p.0, p.1) && grid.cat(p.0, p.1) == lhs[i]
            } by {
                assert(i == 0);
                assert(i * 1 == 0);
            }
            assert(path@ =~= rev_path(x as int, y as int, d, lhs.len())) by {
                assert(0 * 1 == 0);
            }
            assert(path@[path@.len() - 1] == (x, y));
            assert(walk_ok(
                *grid,
                lhs,
                path@[path@.len() - 1].0 as int,
                path@[path@.len() - 1].1 as int,
                d,
            ));
            assert(is_rev_match(*grid, lhs, path@));
        }
        return Some(path);
    }
    // Probe the four neighbor offsets in shuffled order; commit to the
    // first one whose neighbor carries the second left-hand category.
    let dirs = shuffled_directions(rng);
    let mut chosen: Option<Direction> = None;
    let mut di: usize = 0;
    while di < 4
        invariant
            di <= 4,
            dirs@.len() == 4,
            grid.wf(),
            rule.wf(),
            lhs == rule.pattern_to_replace@,
            lhs.len() >= 2,
            grid.in_bounds(x as int, y as int),
            chosen is None ==> forall|k: int|
                0 <= k < di ==> !lookahead_ok(*grid, lhs, x as int, y as int, #[trigger] dirs@[k]),
            chosen matches Some(d) ==> lookahead_ok(*grid, lhs, x as int, y as int, d),
        decreases 4 - di,
    {
        if chosen.is_none() {
            let d = dirs[di];
            match step(grid, x, y, d) {
                Some(np) => {
                    match grid.get(np.0, np.1) {
                        Some(t) => {
                            proof {
                                assert(1 * dir_dx(d) == dir_dx(d));
                                assert(1 * dir_dy(d) == dir_dy(d));
                            }
                            if t.category == rule.pattern_to_replace[1] {
                                chosen = Some(d);
                            }
                        },
                        None => {
                            proof {
                                assert(false);
                            }
                        },
                    }
                },
                None => {
                    proof {
                        assert(1 * dir_dx(d) == dir_dx(d));
                        assert(1 * dir_dy(d) == dir_dy(d));
                    }
                },
            }
        }
        di = di + 1;
    }
    let d = match chosen {
        None => {
            proof {
                assert forall|d2: Direction| !lookahead_ok(*grid, lhs, x as int, y as int, d2) by {
                    assert(dirs@.contains(d2));
                    let k = choose|k: int| 0 <= k < dirs@.len() && dirs@[k] == d2;
                    assert(!lookahead_ok(*grid, lhs, x as int, y as int, dirs@[k]));
                }
            }
            return None;
        },
        Some(d) => d,
    };
    // Walk straight along the committed direction; no other direction is
    // ever retried.
    let mut fwd: Vec<(usize, usize)> = Vec::new();
    fwd.push((x, y));
    let mut cx = x;
    let mut cy = y;
    let mut depth: usize = 1;
    proof {
        assert(0 * dir_dx(d) == 0);
        assert(0 * dir_dy(d) == 0);
    }
    while depth < l
        invariant
            1 <= depth <= l,
            l == lhs.len(),
            grid.wf(),
            rule.wf(),
            lhs == rule.pattern_to_replace@,
            lhs.len() >= 2,
            grid.in_bounds(x as int, y as int),
            grid.cat(x as int, y as int) == lhs[0],
            lookahead_ok(*grid, lhs, x as int, y as int, d),
            cx as int == pos_along(x as int, y as int, d, depth - 1).0,
            cy as int == pos_along(x as int, y as int, d, depth - 1).1,
            forall|i: int| 0 <= i < depth ==> {
                let p = #[trigger] pos_along(x as int, y as int, d, i);
                grid.in_bounds(p.0, p.1) && grid.cat(p.0, p.1) == lhs[i]
            },
            fwd@.len() == depth,
            forall|j: int| 0 <= j < depth ==> {
                let p = pos_along(x as int, y as int, d, j);
                #[trigger] fwd@[j] == (p.0 as usize, p.1 as usize)
            },
        decreases l - depth,
    {
        proof {
            lemma_pos_step(x as int, y as int, d, depth - 1);
        }
        match step(grid, cx, cy, d) {
            None => {
                proof {
                    let p = pos_along(x as int, y as int, d, depth as int);
                    assert(!grid.in_bounds(p.0, p.1));
                    assert(!walk_ok(*grid, lhs, x as int, y as int, d));
                }
                return None;
            },
            Some(np) => {
                let (nx, ny) = np;
                match grid.get(nx, ny) {
                    None => {
                        proof {
                            assert(false);
                        }
                        return None;
                    },
                    Some(t) => {
                        if t.category == rule.pattern_to_replace[depth] {
                            fwd.push((nx, ny));
                            cx = nx;
                            cy = ny;
                            depth = depth + 1;
                        } else {
                            proof {
                                let p = pos_along(x as int, y as int, d, depth as int);
                                assert(grid.cat(p.0, p.1) != lhs[depth as int]);
                                assert(!walk_ok(*grid, lhs, x as int, y as int, d));
                            }
                            return None;
                        }
                    },
                }
            },
        }
    }
    proof {
        assert(walk_ok(*grid, lhs, x as int, y as int, d));
    }
    // Reverse into the deepest-first order the engine applies rules in.
    let mut path: Vec<(usize, usize)> = Vec::new();
    let mut k: usize = 0;
    while k < l
        invariant
            k <= l,
            l == lhs.len(),
            fwd@.len() == l,
            path@.len() == k,
            forall|j: int| 0 <= j < k ==> #[trigger] path@[j] == fwd@[l - 1 - j],
            forall|j: int| 0 <= j < l ==> {
                let p = pos_along(x as int, y as int, d, j);
                #[trigger] fwd@[j] == (p.0 as usize, p.1 as usize)
            },
        decreases l - k,
    {
        path.push(fwd[l - 1 - k]);
        k = k + 1;
    }
    proof {
        assert(path@ =~= rev_path(x as int, y as int, d, lhs.len()));
        lemma_rev_path_distinct(*grid, lhs, x as int, y as int, d);
        let s = path@[path@.len() - 1];
        assert(s == (x, y)) by {
            assert((lhs.len() - 1) - (lhs.len() - 1) == 0);
            assert(0 * dir_dx(d) == 0);
            assert(0 * dir_dy(d) == 0);
        }
        assert(walk_ok(
            *grid,
            lhs,
            path@[path@.len() - 1].0 as int,
            path@[path@.len() - 1].1 as int,
            d,
        ));
        assert(is_rev_match(*grid, lhs, path@));
        assert forall|j: int| 0 <= j < path@.len() implies grid.in_bounds_coord(
            #[trigger] path@[j],
        ) by {
            let p = pos_along(x as int, y as int, d, lhs.len() - 1 - j);
            assert(grid.in_bounds(p.0, p.1));
        }
    }
    Some(path)
}

} // verus!
