use seeker::fixed::PROB_ONE;
use seeker::grid::{Coordinates, Grid};

#[test]
fn toroidal_wrap_returns_identical_cells() {
    let mut g = Grid::new(Coordinates { x: 8, y: 6 });
    g.init(2, 3);
    g.init(0, 0);
    for y in 0..6 {
        for x in 0..8 {
            let here = g.get(x, y).is_some();
            assert_eq!(g.get(x + 8, y).is_some(), here);
            assert_eq!(g.get(x, y + 6).is_some(), here);
            assert_eq!(g.get(x - 8, y - 6).is_some(), here);
        }
    }
    assert!(g.get(2, 3).is_some());
    assert!(g.get(-6, -3).is_some());
    assert!(g.get(3, 2).is_none());
}

#[test]
fn init_places_a_fresh_cell() {
    let mut g = Grid::new(Coordinates { x: 4, y: 4 });
    assert!(g.get(1, 1).is_none());
    g.init(1, 1);
    let cell = g.get(1, 1).expect("the cell was just placed");
    assert_eq!(cell.age, 1);
    assert_eq!(cell.avg_breed_age, 0);
    assert_eq!(cell.avg_velocity, [0, 0]);
}

#[test]
fn mutate_overwrites_in_place() {
    let mut g = Grid::new(Coordinates { x: 4, y: 4 });
    g.init(2, 2);
    *g.mutate(2, 2) = None;
    assert!(g.get(2, 2).is_none());
}

#[test]
fn analyze_reports_the_exact_ratio() {
    let mut g = Grid::new(Coordinates { x: 8, y: 8 });
    for x in 0..5 {
        g.init(x, 0);
    }
    // 5 of 64 cells, in fixed point: 5 * PROB_ONE / 64 exactly
    assert_eq!(g.analyze().alive_ratio, 5 * PROB_ONE / 64);
}

#[test]
fn analyze_is_zero_exactly_on_an_empty_board() {
    let g = Grid::new(Coordinates { x: 1000, y: 1000 });
    assert_eq!(g.analyze().alive_ratio, 0);
    // even a single live cell on a huge board reads as nonzero
    let mut g2 = Grid::new(Coordinates { x: 1000, y: 1000 });
    g2.init(500, 500);
    assert!(g2.analyze().alive_ratio > 0);
}
