use grid_rewrite::category::CategoryId;
use grid_rewrite::grid::Grid;
use grid_rewrite::index::CategoryIndex;
use grid_rewrite::matcher::{search, shuffled_directions, Direction};
use grid_rewrite::random::RandomSource;
use grid_rewrite::rules::Pattern;
use grid_rewrite::tile::Tile;

fn white() -> CategoryId {
    CategoryId { code: b'w' }
}

fn black() -> CategoryId {
    CategoryId { code: b'k' }
}

fn gray() -> CategoryId {
    CategoryId { code: b'g' }
}

#[test]
fn grid_new_get_set_bounds() {
    let mut g = Grid::new(3, 2, white(), 1);
    assert_eq!(g.dimensions(), (3, 2));
    let t = g.get(2, 1).unwrap();
    assert_eq!(t.category, white());
    assert_eq!(t.iterations, 0);
    assert!(t.is_sequence_live(0));
    // Out of bounds is "no cell", never another cell.
    assert!(g.get(3, 0).is_none());
    assert!(g.get(0, 2).is_none());
    assert!(g.set(3, 0, Tile::new(black(), 1)).is_none());
    assert!(g.set(1, 1, Tile::new(black(), 1)).is_some());
    assert_eq!(g.get(1, 1).unwrap().category, black());
    assert_eq!(g.get(0, 0).unwrap().category, white());
}

#[test]
fn tile_kill_and_set_live() {
    let mut t = Tile::new(white(), 3);
    assert!(t.is_sequence_live(0));
    assert!(t.is_sequence_live(2));
    t.kill(1);
    assert!(t.is_sequence_live(0));
    assert!(!t.is_sequence_live(1));
    t.iterate();
    assert_eq!(t.iterations, 1);
    t.set_live();
    assert!(t.is_sequence_live(1));
    assert_eq!(t.iterations, 0);
}

#[test]
fn tile_set_color_resets_age() {
    let mut t = Tile::new(white(), 1);
    t.iterate();
    t.iterate();
    assert_eq!(t.iterations, 2);
    t.set_color(gray());
    assert_eq!(t.category, gray());
    assert_eq!(t.iterations, 0);
}

#[test]
fn grid_iterate_and_reset() {
    let mut g = Grid::new(2, 2, white(), 1);
    g.iterate();
    g.iterate();
    assert_eq!(g.get(1, 1).unwrap().iterations, 2);
    g.reset_iterations();
    assert_eq!(g.get(1, 1).unwrap().iterations, 0);
    assert_eq!(g.get(0, 0).unwrap().category, white());
}

#[test]
fn index_buckets_mirror_grid() {
    let mut g = Grid::new(2, 2, white(), 1);
    g.set(0, 1, Tile::new(black(), 1));
    let idx = CategoryIndex::new(&g);
    let whites = idx.candidates(white());
    let blacks = idx.candidates(black());
    let grays = idx.candidates(gray());
    assert_eq!(whites.len(), 3);
    assert_eq!(blacks.len(), 1);
    assert_eq!(grays.len(), 0);
    assert!(blacks.contains(&(0, 1)));
    assert!(!whites.contains(&(0, 1)));
}

#[test]
fn shuffled_directions_is_a_permutation() {
    let mut rng = RandomSource::scripted(vec![3, 1, 0]);
    let dirs = shuffled_directions(&mut rng);
    assert_eq!(dirs.len(), 4);
    for d in [Direction::Left, Direction::Right, Direction::Up, Direction::Down] {
        assert!(dirs.contains(&d));
    }
}

#[test]
fn scripted_randomness_is_deterministic() {
    let mut rng = RandomSource::scripted(vec![2, 5]);
    assert_eq!(rng.next_below(4), 2);
    assert_eq!(rng.next_below(4), 1); // 5 % 4
    assert_eq!(rng.next_below(4), 2); // the script cycles
    let mut ext = RandomSource::external();
    for _ in 0..32 {
        assert!(ext.next_below(3) < 3);
    }
}

#[test]
fn search_finds_straight_line_deepest_first() {
    // Grid 3x1: [Black, White, White]; rule lhs = kww.
    let mut g = Grid::new(3, 1, white(), 1);
    g.set(0, 0, Tile::new(black(), 1));
    let rule = Pattern::new(
        vec![black(), white(), white()],
        vec![gray(), gray(), black()],
    );
    let mut rng = RandomSource::external();
    // Only one direction passes the lookahead, so the result is forced.
    let path = search(&g, &rule, 0, 0, &mut rng).unwrap();
    assert_eq!(path, vec![(2, 0), (1, 0), (0, 0)]);
    // No duplicates, constant per-step offset, full rule length.
    assert_eq!(path.len(), 3);
    for i in 0..path.len() {
        for j in (i + 1)..path.len() {
            assert_ne!(path[i], path[j]);
        }
    }
}

#[test]
fn search_fails_on_wrong_start_or_dead_ends() {
    let g = Grid::new(3, 1, white(), 1);
    let rule = Pattern::new(vec![black(), white()], vec![gray(), gray()]);
    let mut rng = RandomSource::external();
    // Start cell does not carry lhs[0].
    assert!(search(&g, &rule, 0, 0, &mut rng).is_none());
    // Out of bounds start.
    assert!(search(&g, &rule, 5, 0, &mut rng).is_none());
    // No direction can satisfy the lookahead.
    let g2 = Grid::new(1, 1, black(), 1);
    assert!(search(&g2, &rule, 0, 0, &mut rng).is_none());
    // A single-cell rule matches degenerately.
    let single = Pattern::new(vec![black()], vec![gray()]);
    let path = search(&g2, &single, 0, 0, &mut rng).unwrap();
    assert_eq!(path, vec![(0, 0)]);
}

#[test]
fn search_walks_vertically_too() {
    // Grid 1x3: [Black; White; White] downward; the only viable direction
    // is Down, so the path is forced.
    let mut g = Grid::new(1, 3, white(), 1);
    g.set(0, 0, Tile::new(black(), 1));
    let rule = Pattern::new(vec![black(), white(), white()], vec![gray(), gray(), black()]);
    let mut rng = RandomSource::external();
    let path = search(&g, &rule, 0, 0, &mut rng).unwrap();
    assert_eq!(path, vec![(0, 2), (0, 1), (0, 0)]);
}
