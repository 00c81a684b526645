use self_avoiding_walk::grid::{Direction, Grid, Pos};

const DIRS: [Direction; 4] = [
    Direction::Up,
    Direction::Right,
    Direction::Down,
    Direction::Left,
];

fn in_bounds(p: Pos, size: usize) -> bool {
    p.i < size && p.j < size
}

fn adjacent(a: Pos, b: Pos) -> bool {
    let di: usize = if a.i > b.i { a.i - b.i } else { b.i - a.i };
    let dj: usize = if a.j > b.j { a.j - b.j } else { b.j - a.j };
    di + dj == 1
}

/// Checks the walk invariants on a snapshot: in-bounds, self-avoiding,
/// connected path; every path and pending cell occupied.
fn check_invariants(g: &Grid) {
    let size: usize = g.size();
    let path = g.current_path();
    for (k, p) in path.iter().enumerate() {
        assert!(in_bounds(*p, size));
        assert!(g.tile(p.i, p.j).is_occupied());
        for q in path.iter().skip(k + 1) {
            assert!(*p != *q, "path revisits a position");
        }
        if k + 1 < path.len() {
            assert!(adjacent(*p, path[k + 1]), "non-adjacent consecutive cells");
        }
    }
    for p in g.pending_release().iter() {
        assert!(in_bounds(*p, size));
        assert!(g.tile(p.i, p.j).is_occupied());
        assert!(!path.contains(p), "pending cell still on the path");
    }
}

#[test]
fn fresh_grid_is_empty_and_clear() {
    let g = Grid::new(4, 9);
    assert_eq!(g.size(), 4);
    assert!(!g.is_done());
    assert!(g.current_path().is_empty());
    assert!(g.pending_release().is_empty());
    for i in 0..4 {
        for j in 0..4 {
            let t = g.tile(i, j);
            assert!(!t.is_occupied());
            for d in DIRS {
                assert!(!t.was_tried(d));
            }
            assert_eq!(t.can_try().len(), 4);
        }
    }
}

#[test]
fn init_seeds_one_in_bounds_cell() {
    for seed in 0..20u64 {
        let mut g = Grid::new(5, seed);
        g.init();
        let path = g.current_path();
        assert_eq!(path.len(), 1);
        assert!(in_bounds(path[0], 5));
        assert!(g.tile(path[0].i, path[0].j).is_occupied());
        check_invariants(&g);
    }
}

#[test]
fn init_on_non_empty_path_is_a_no_op() {
    let mut g = Grid::new(5, 3);
    g.init();
    let before = g.current_path();
    g.init();
    assert_eq!(g.current_path(), before);
}

#[test]
fn size_one_grid_done_before_any_advance() {
    let g = Grid::new(1, 11);
    assert!(g.is_done(), "a one-cell walk is trivially complete");
    assert!(g.current_path().is_empty());

    let mut g = Grid::new(1, 12);
    g.init();
    assert_eq!(g.current_path(), vec![Pos { i: 0, j: 0 }]);
    g.next_path();
    assert!(g.is_done());
    assert_eq!(g.current_path(), vec![Pos { i: 0, j: 0 }]);
}

#[test]
fn identical_seeds_give_identical_walks() {
    let mut a = Grid::new(6, 42);
    let mut b = Grid::new(6, 42);
    a.init();
    b.init();
    assert_eq!(a.current_path(), b.current_path());
    for _ in 0..80 {
        if a.current_path().is_empty() {
            break;
        }
        a.next_path();
        b.next_path();
        assert_eq!(a.current_path(), b.current_path());
        assert_eq!(a.is_done(), b.is_done());
    }
}

#[test]
fn differing_seeds_eventually_differ() {
    // Not a guarantee for every pair of seeds, but it holds for this one and
    // shows the seed actually steers the generator.
    let mut a = Grid::new(6, 1);
    let mut b = Grid::new(6, 2);
    a.init();
    b.init();
    let mut differed = a.current_path() != b.current_path();
    for _ in 0..40 {
        if a.current_path().is_empty() || b.current_path().is_empty() {
            break;
        }
        a.next_path();
        b.next_path();
        if a.current_path() != b.current_path() {
            differed = true;
        }
    }
    assert!(differed);
}

#[test]
fn growth_empties_pending_release() {
    for seed in 0..30u64 {
        let mut g = Grid::new(3, seed);
        g.init();
        for _ in 0..200 {
            if g.is_done() || g.current_path().is_empty() {
                break;
            }
            let before = g.current_path().len();
            g.next_path();
            if g.current_path().len() > before {
                assert!(
                    g.pending_release().is_empty(),
                    "pending cells survived an extension"
                );
            }
            check_invariants(&g);
        }
    }
}

#[test]
fn full_coverage_on_two_by_two() {
    for seed in 0..10u64 {
        let mut g = Grid::new(2, seed);
        g.init();
        let mut steps: usize = 0;
        while !g.is_done() && steps < 200 {
            if g.current_path().is_empty() {
                break;
            }
            g.next_path();
            check_invariants(&g);
            steps += 1;
        }
        if g.is_done() {
            assert_eq!(g.current_path().len(), 4);
        } else {
            // The other admissible terminal: every cell's tried set
            // exhausted while coverage is incomplete.
            assert!(g.current_path().len() < 4);
            for i in 0..2 {
                for j in 0..2 {
                    assert!(g.tile(i, j).can_try().is_empty());
                }
            }
        }
    }
}

#[test]
fn done_is_permanent_and_freezes_the_path() {
    let mut g = Grid::new(2, 5);
    g.init();
    let mut steps: usize = 0;
    while !g.is_done() && steps < 200 {
        assert!(!g.current_path().is_empty());
        g.next_path();
        steps += 1;
    }
    assert!(g.is_done());
    let frozen = g.current_path();
    for _ in 0..5 {
        g.next_path();
        assert!(g.is_done());
        assert_eq!(g.current_path(), frozen);
    }
}

#[test]
fn backtracked_cell_stays_blocked_until_growth_resumes() {
    let mut observed = false;
    'seeds: for seed in 0..300u64 {
        let mut g = Grid::new(3, seed);
        g.init();
        for _ in 0..400 {
            if g.is_done() || g.current_path().is_empty() {
                continue 'seeds;
            }
            let before = g.current_path();
            g.next_path();
            let after = g.current_path();
            if after.len() < before.len() {
                // A dead end: the popped tip is pending, still occupied,
                // and keeps its tried flags.
                let popped = *before.last().unwrap();
                assert!(g.pending_release().contains(&popped));
                assert!(g.tile(popped.i, popped.j).is_occupied());
                // Step on until growth resumes; the cell must stay blocked
                // throughout, then be fully released.
                for _ in 0..400 {
                    if g.is_done() || g.current_path().is_empty() {
                        continue 'seeds;
                    }
                    let len_before = g.current_path().len();
                    g.next_path();
                    if g.current_path().len() > len_before {
                        assert!(g.pending_release().is_empty());
                        if !g.current_path().contains(&popped) {
                            let t = g.tile(popped.i, popped.j);
                            assert!(!t.is_occupied());
                            for d in DIRS {
                                assert!(!t.was_tried(d));
                            }
                        }
                        observed = true;
                        continue 'seeds;
                    }
                    assert!(g.pending_release().contains(&popped));
                    assert!(g.tile(popped.i, popped.j).is_occupied());
                }
                continue 'seeds;
            }
        }
    }
    assert!(observed, "no seed below 300 produced a backtrack-then-resume run");
}

#[test]
fn larger_walk_keeps_invariants_for_many_steps() {
    let mut g = Grid::new(8, 77);
    g.init();
    for _ in 0..500 {
        if g.is_done() || g.current_path().is_empty() {
            break;
        }
        g.next_path();
    }
    check_invariants(&g);
}
