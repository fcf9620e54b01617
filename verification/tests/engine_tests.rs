use grid_rewrite::category::CategoryId;
use grid_rewrite::engine::{live_candidates, Engine, TickOutcome};
use grid_rewrite::grid::Grid;
use grid_rewrite::index::CategoryIndex;
use grid_rewrite::random::RandomSource;
use grid_rewrite::rules::parse_rules;

fn white() -> CategoryId {
    CategoryId { code: b'w' }
}

fn black() -> CategoryId {
    CategoryId { code: b'k' }
}

fn gray() -> CategoryId {
    CategoryId { code: b'g' }
}

fn red() -> CategoryId {
    CategoryId { code: b'r' }
}

fn cat_at(e: &Engine, x: usize, y: usize) -> CategoryId {
    e.grid.get(x, y).unwrap().category
}

#[test]
fn scenario_three_cell_rewrite() {
    // Grid 3x1 [Black, White, White]; rule kww=kgg; one tick rewrites the
    // whole line to [Black, Gray, Gray].
    let rules = parse_rules(&b"kww=kgg".to_vec()).unwrap();
    let mut e = Engine::new(3, 1, white(), rules, RandomSource::external());
    e.set_cell(0, 0, black());
    match e.tick() {
        TickOutcome::Applied { rule_index, path } => {
            assert_eq!(rule_index, 0);
            assert_eq!(path, vec![(2, 0), (1, 0), (0, 0)]);
        },
        TickOutcome::Converged => panic!("the rule must match"),
    }
    assert_eq!(cat_at(&e, 0, 0), black());
    assert_eq!(cat_at(&e, 1, 0), gray());
    assert_eq!(cat_at(&e, 2, 0), gray());
    // The rewritten cells are fresh: age zero, fully live.
    for x in 0..3 {
        let t = e.grid.get(x, 0).unwrap();
        assert_eq!(t.iterations, 0);
        assert!(t.is_sequence_live(0));
    }
    // The index reflects exactly the new categories.
    let blacks = e.tilemap.candidates(black());
    let grays = e.tilemap.candidates(gray());
    let whites = e.tilemap.candidates(white());
    assert_eq!(blacks.len(), 1);
    assert!(blacks.contains(&(0, 0)));
    assert_eq!(grays.len(), 2);
    assert!(grays.contains(&(1, 0)) && grays.contains(&(2, 0)));
    assert_eq!(whites.len(), 0);
}

#[test]
fn rule_without_candidates_is_skipped() {
    // No cell holds Red, so a rule whose lhs starts with Red never fires.
    let rules = parse_rules(&b"r=k".to_vec()).unwrap();
    let mut e = Engine::new(2, 2, white(), rules, RandomSource::external());
    for _ in 0..5 {
        match e.tick() {
            TickOutcome::Converged => (),
            TickOutcome::Applied { .. } => panic!("a red rule cannot match a white grid"),
        }
    }
    for y in 0..2 {
        for x in 0..2 {
            assert_eq!(cat_at(&e, x, y), white());
            // Every converged tick still ages the cells.
            assert_eq!(e.grid.get(x, y).unwrap().iterations, 5);
        }
    }
}

#[test]
fn earlier_rule_has_priority() {
    // Both rules match every white cell; only the first may ever fire.
    let rules = parse_rules(&b"w=g\nw=r".to_vec()).unwrap();
    let mut e = Engine::new(1, 1, white(), rules, RandomSource::external());
    match e.tick() {
        TickOutcome::Applied { rule_index, path } => {
            assert_eq!(rule_index, 0);
            assert_eq!(path, vec![(0, 0)]);
        },
        TickOutcome::Converged => panic!("the first rule must match"),
    }
    assert_eq!(cat_at(&e, 0, 0), gray());
}

#[test]
fn one_mutation_per_tick() {
    let rules = parse_rules(&b"w=g".to_vec()).unwrap();
    let mut e = Engine::new(2, 1, white(), rules, RandomSource::external());
    // First tick rewrites exactly one of the two white cells.
    assert!(matches!(e.tick(), TickOutcome::Applied { .. }));
    let grays_after_one = (cat_at(&e, 0, 0) == gray()) as usize + (cat_at(&e, 1, 0) == gray())
        as usize;
    assert_eq!(grays_after_one, 1);
    // The second tick rewrites the other; the third converges.
    assert!(matches!(e.tick(), TickOutcome::Applied { .. }));
    assert_eq!(cat_at(&e, 0, 0), gray());
    assert_eq!(cat_at(&e, 1, 0), gray());
    assert!(matches!(e.tick(), TickOutcome::Converged));
}

#[test]
fn converged_stays_converged() {
    // Nothing matches: the first tick reports convergence without a
    // mutation, and so does the next one.
    let rules = parse_rules(&b"r=k".to_vec()).unwrap();
    let mut e = Engine::new(3, 3, white(), rules, RandomSource::scripted(vec![0]));
    assert!(matches!(e.tick(), TickOutcome::Converged));
    for y in 0..3 {
        for x in 0..3 {
            assert_eq!(cat_at(&e, x, y), white());
        }
    }
    assert!(matches!(e.tick(), TickOutcome::Converged));
}

#[test]
fn killed_cell_is_not_scanned_until_revived() {
    // Kill (1,0) for the only rule: the tick may only match at (0,0).
    let rules = parse_rules(&b"w=g".to_vec()).unwrap();
    let mut e = Engine::new(2, 1, white(), rules, RandomSource::external());
    e.kill_cell(1, 0, 0);
    assert!(!e.grid.get(1, 0).unwrap().is_sequence_live(0));
    match e.tick() {
        TickOutcome::Applied { rule_index, path } => {
            assert_eq!(rule_index, 0);
            assert_eq!(path, vec![(0, 0)]);
        },
        TickOutcome::Converged => panic!("the live candidate must match"),
    }
    assert_eq!(cat_at(&e, 0, 0), gray());
    assert_eq!(cat_at(&e, 1, 0), white());
    // The write at (0,0) revived its neighbor: the bit is set again and
    // the next tick may rewrite it.
    assert!(e.grid.get(1, 0).unwrap().is_sequence_live(0));
    assert!(matches!(e.tick(), TickOutcome::Applied { .. }));
    assert_eq!(cat_at(&e, 1, 0), gray());
}

#[test]
fn live_candidates_filters_killed_cells() {
    let mut g = Grid::new(2, 1, white(), 1);
    g.kill_at(1, 0, 0);
    let idx = CategoryIndex::new(&g);
    let cands = live_candidates(&g, &idx, white(), 0);
    assert_eq!(cands, vec![(0, 0)]);
    // Reviving the cell puts it back among the candidates.
    g.set_live_at(1, 0);
    let idx2 = CategoryIndex::new(&g);
    let cands2 = live_candidates(&g, &idx2, white(), 0);
    assert_eq!(cands2.len(), 2);
    assert!(cands2.contains(&(0, 0)) && cands2.contains(&(1, 0)));
}

#[test]
fn set_cell_keeps_index_consistent() {
    let rules = parse_rules(&b"w=g".to_vec()).unwrap();
    let mut e = Engine::new(2, 2, white(), rules, RandomSource::external());
    e.set_cell(1, 1, black());
    e.set_cell(0, 0, black());
    e.set_cell(1, 1, red());
    let blacks = e.tilemap.candidates(black());
    let reds = e.tilemap.candidates(red());
    let whites = e.tilemap.candidates(white());
    assert_eq!(blacks.len(), 1);
    assert!(blacks.contains(&(0, 0)));
    assert_eq!(reds.len(), 1);
    assert!(reds.contains(&(1, 1)));
    assert_eq!(whites.len(), 2);
    assert!(whites.contains(&(1, 0)) && whites.contains(&(0, 1)));
}
